//! Opening a database: what is replayed, and from where.

use vstd::prelude::*;

use crate::auth::create_ops;
use crate::auth::is_name_test;
use crate::auth::role_op_views;
use crate::auth::state_ops;
use crate::auth::RoleOp;
use crate::bytes::copy_bytes;
use crate::bytes::same_bytes;
use crate::catalog::Catalog;
use crate::catalog::CatalogView;
use crate::catalog::GeoIndexDef;
use crate::catalog::IndexDef;
use crate::catalog::SchemaVersion;
use crate::catalog::SearchIndexDef;
use crate::catalog::TableDef;
use crate::catalog::VectorIndexDef;
use crate::database::catchup_views;
use crate::database::Database;
use crate::database::DbView;
use crate::error::EngineError;
use crate::error::ErrorView;
use crate::hits::search_check;
use crate::hlc::hlc_lt;
use crate::hlc::hlc_max;
use crate::hlc::hlc_min;
use crate::hlc::Hlc;
use crate::journal::decode_txn_journal;
use crate::journal::document_rejected;
use crate::journal::documents_accepted;
use crate::journal::op_view;
use crate::journal::parse_journal;
use crate::journal::writes_view;
use crate::journal::TxnWrites;
use crate::maintenance::any_on;
use crate::maintenance::MaintTask;
use crate::namespace::split_name;
use crate::projection::NameSet;
use crate::sorted_map::SortedMap;
use crate::text::views;
use crate::watermarks::read_back;
use crate::watermarks::watermark_parse;
use crate::watermarks::AppliedWatermarks;

verus! {

/// The latest of a run of schema stamps.
pub open spec fn latest_stamp(es: Seq<(String, SchemaVersion)>) -> Hlc
    decreases es.len(),
{
    if es.len() == 0 {
        hlc_min()
    } else {
        hlc_max(latest_stamp(es.drop_last()), es.last().1.hlc)
    }
}

/// The stamp that a reopened database's clock is moved past: the latest that
/// its catalog records, so that no later statement is stamped behind one.
pub fn seed_stamp(versions: &SortedMap<String, SchemaVersion>) -> (r: Hlc)
    requires
        versions.wf(),
    ensures
        r == latest_stamp(versions.entries@),
        forall|i: int|
            0 <= i < versions.entries@.len() ==> !hlc_lt(
                r,
                (#[trigger] versions.entries@[i]).1.hlc,
            ),
{
    let ghost es = versions.entries@;
    let mut r = Hlc::min();
    let mut i: usize = 0;
    proof {
        assert(es.take(0) =~= Seq::<(String, SchemaVersion)>::empty());
    }
    while i < versions.len()
        invariant
            versions.wf(),
            es == versions.entries@,
            i <= es.len(),
            r == latest_stamp(es.take(i as int)),
            forall|k: int| 0 <= k < i ==> !hlc_lt(r, (#[trigger] es[k]).1.hlc),
        decreases es.len() - i,
    {
        proof {
            assert(es.take(i + 1).drop_last() =~= es.take(i as int));
            assert(es.take(i + 1).last() == es[i as int]);
        }
        r = r.later(versions.value_at(i).hlc);
        i = i + 1;
    }
    proof {
        assert(es.take(es.len() as int) =~= es);
    }
    r
}

/// The geo indexes whose backfill was interrupted, in name order.
pub open spec fn interrupted(es: Seq<(String, GeoIndexDef)>) -> Seq<Seq<char>>
    decreases es.len(),
{
    if es.len() == 0 {
        Seq::empty()
    } else {
        let before = interrupted(es.drop_last());
        if es.last().1.building {
            before.push(es.last().0@)
        } else {
            before
        }
    }
}

/// The indexes that have a store of their own, in name order: the secondary
/// ones that are not global.
pub open spec fn stored(es: Seq<(String, IndexDef)>) -> Seq<Seq<char>>
    decreases es.len(),
{
    if es.len() == 0 {
        Seq::empty()
    } else {
        let before = stored(es.drop_last());
        if es.last().1.global {
            before
        } else {
            before.push(es.last().0@)
        }
    }
}

impl Database {
    /// A database over a loaded catalog: the geo backfills that were
    /// interrupted are owed again.
    pub fn reopen(catalog: Catalog) -> (r: Database)
        requires
            catalog.wf(),
        ensures
            r.wf(),
            r.catalog == catalog,
            r@ == (DbView {
                cat: catalog@,
                building_vectors: Set::empty(),
                building_searches: Set::empty(),
                pending_backfills: Seq::empty(),
                pending_vector_backfills: Seq::empty(),
                pending_geo_backfills: interrupted(catalog.geo_indexes.entries@),
                pending_search_catchups: Seq::empty(),
            }),
    {
        let ghost es = catalog.geo_indexes.entries@;
        let mut owed: Vec<String> = Vec::new();
        let mut i: usize = 0;
        proof {
            assert(es.take(0) =~= Seq::<(String, GeoIndexDef)>::empty());
            assert(views(owed@) =~= Seq::<Seq<char>>::empty());
        }
        while i < catalog.geo_indexes.len()
            invariant
                catalog.wf(),
                es == catalog.geo_indexes.entries@,
                i <= es.len(),
                views(owed@) == interrupted(es.take(i as int)),
            decreases es.len() - i,
        {
            proof {
                assert(es.take(i + 1).drop_last() =~= es.take(i as int));
                assert(es.take(i + 1).last() == es[i as int]);
            }
            if catalog.geo_indexes.value_at(i).building {
                let ghost before = views(owed@);
                owed.push(catalog.geo_indexes.key_at(i).clone());
                proof {
                    assert(views(owed@) =~= before.push(es[i as int].0@));
                }
            }
            i = i + 1;
        }
        proof {
            assert(es.take(es.len() as int) =~= es);
        }
        let mut db = Database::new(catalog);
        db.pending_geo_backfills = owed;
        db
    }

    /// The secondary indexes whose stores a reopened database opens.
    pub fn stored_indexes(&self) -> (r: Vec<String>)
        requires
            self.wf(),
        ensures
            views(r@) == stored(self.catalog.indexes.entries@),
    {
        let m = &self.catalog.indexes;
        let ghost es = m.entries@;
        let mut out: Vec<String> = Vec::new();
        let mut i: usize = 0;
        proof {
            assert(es.take(0) =~= Seq::<(String, IndexDef)>::empty());
            assert(views(out@) =~= Seq::<Seq<char>>::empty());
        }
        while i < m.len()
            invariant
                m.wf(),
                es == m.entries@,
                i <= es.len(),
                views(out@) == stored(es.take(i as int)),
            decreases es.len() - i,
        {
            proof {
                assert(es.take(i + 1).drop_last() =~= es.take(i as int));
                assert(es.take(i + 1).last() == es[i as int]);
            }
            if !m.value_at(i).global {
                let ghost before = views(out@);
                out.push(m.key_at(i).clone());
                proof {
                    assert(views(out@) =~= before.push(es[i as int].0@));
                }
            }
            i = i + 1;
        }
        proof {
            assert(es.take(es.len() as int) =~= es);
        }
        out
    }
}

/// A row as a scan of versions yields it; a deleted one has no value.
pub struct VersionedRow {
    pub key: Vec<u8>,
    pub hlc: Hlc,
    pub value: Option<Vec<u8>>,
}

pub struct RowVersion {
    pub key: Seq<u8>,
    pub hlc: Hlc,
    pub value: Option<Seq<u8>>,
}

impl View for VersionedRow {
    type V = RowVersion;

    open spec fn view(&self) -> RowVersion {
        RowVersion { key: self.key@, hlc: self.hlc, value: op_view(self.value) }
    }
}

/// Rows by what each holds.
pub open spec fn row_versions(rs: Seq<VersionedRow>) -> Seq<RowVersion> {
    rs.map_values(|r: VersionedRow| r@)
}

/// An index that catches up on its table: the watermark that its snapshot or
/// segments are complete up to, and the latest stamp seen since. Rows come in
/// key order, not by stamp, so each is held against the fixed watermark and
/// the latest stamp is kept apart.
#[derive(Clone, Copy, Debug, PartialEq, Eq, Structural)]
pub struct CatchUp {
    /// Nothing for an index that starts from scratch.
    pub watermark: Option<Hlc>,
    pub max_seen: Hlc,
}

/// Whether a row is replayed into an index that is complete up to a watermark.
pub open spec fn replays(watermark: Option<Hlc>, hlc: Hlc) -> bool {
    match watermark {
        Some(w) => hlc_lt(w, hlc),
        None => true,
    }
}

impl CatchUp {
    /// Starts behind a watermark, or from scratch.
    pub fn new(watermark: Option<Hlc>) -> (r: CatchUp)
        ensures
            r.watermark == watermark,
            r.max_seen == (match watermark {
                Some(w) => w,
                None => hlc_min(),
            }),
    {
        CatchUp {
            watermark,
            max_seen: match watermark {
                Some(w) => w,
                None => Hlc::min(),
            },
        }
    }

    /// Takes the stamp of one row: whether the row is replayed.
    pub fn take_in(&mut self, hlc: Hlc) -> (r: bool)
        ensures
            r == replays(old(self).watermark, hlc),
            final(self).watermark == old(self).watermark,
            final(self).max_seen == (if r {
                hlc_max(old(self).max_seen, hlc)
            } else {
                old(self).max_seen
            }),
    {
        if let Some(w) = self.watermark {
            if !w.before(hlc) {
                return false;
            }
        }
        self.max_seen = self.max_seen.later(hlc);
        true
    }
}

/// The latest stamp after a run of rows.
pub open spec fn max_seen(watermark: Option<Hlc>, start: Hlc, stamps: Seq<Hlc>) -> Hlc
    decreases stamps.len(),
{
    if stamps.len() == 0 {
        start
    } else {
        let before = max_seen(watermark, start, stamps.drop_last());
        if replays(watermark, stamps.last()) {
            hlc_max(before, stamps.last())
        } else {
            before
        }
    }
}

/// The watermark that a finished catch-up records covers every row it went
/// over, so that the next one replays none of them; and no row stamped after
/// the old watermark is passed over, whatever order the rows come in.
pub proof fn catch_up_covers_every_row(w: Hlc, stamps: Seq<Hlc>)
    ensures
        forall|i: int|
            0 <= i < stamps.len() ==> !replays(
                Some(max_seen(Some(w), w, stamps)),
                #[trigger] stamps[i],
            ),
        !hlc_lt(max_seen(Some(w), w, stamps), w),
    decreases stamps.len(),
{
    if stamps.len() > 0 {
        let init = stamps.drop_last();
        catch_up_covers_every_row(w, init);
        let m = max_seen(Some(w), w, stamps);
        let b = max_seen(Some(w), w, init);
        assert forall|i: int| 0 <= i < stamps.len() implies !replays(
            Some(m),
            #[trigger] stamps[i],
        ) by {
            if i < init.len() {
                assert(init[i] == stamps[i]);
                assert(!replays(Some(b), init[i]));
            }
        }
    }
}

/// What a replayed row does to an index.
#[derive(Clone, Copy, Debug, PartialEq, Eq, Structural)]
pub enum ReplayAction {
    /// The row's document goes in.
    Put,
    /// The row's entry goes.
    Remove,
    /// The payload is no document: nothing.
    Skip,
}

/// What a replayed row does to a vector index: `decoded` is whether a live
/// row's payload is a document, and `has_vector` whether that holds a vector.
pub fn vector_replay(live: bool, decoded: bool, has_vector: bool) -> (r: ReplayAction)
    ensures
        r == (if !live {
            ReplayAction::Remove
        } else if !decoded {
            ReplayAction::Skip
        } else if has_vector {
            ReplayAction::Put
        } else {
            ReplayAction::Remove
        }),
{
    if !live {
        ReplayAction::Remove
    } else if !decoded {
        ReplayAction::Skip
    } else if has_vector {
        ReplayAction::Put
    } else {
        ReplayAction::Remove
    }
}

/// What a replayed row does to a search index.
pub fn search_replay(live: bool, decoded: bool) -> (r: ReplayAction)
    ensures
        r == (if !live {
            ReplayAction::Remove
        } else if decoded {
            ReplayAction::Put
        } else {
            ReplayAction::Skip
        }),
{
    if !live {
        ReplayAction::Remove
    } else if decoded {
        ReplayAction::Put
    } else {
        ReplayAction::Skip
    }
}

/// How a search index comes up.
#[derive(Clone, Copy, Debug, PartialEq, Eq, Structural)]
pub enum SearchStartup {
    /// Its table is not here: as it is.
    AsIs,
    /// In pages in the background, cleared first where it never committed;
    /// until then a search on it is refused.
    Deferred { clear: bool, from: Option<Hlc> },
    /// By a replay of the rows stamped after its watermark, deletes among
    /// them.
    CatchUp(Hlc),
    /// From scratch, over the live rows.
    Rebuild,
}

/// How a search index comes up, given its committed watermark.
pub open spec fn startup_of(has_table: bool, defer: bool, watermark: Option<Hlc>) -> SearchStartup {
    if !has_table {
        SearchStartup::AsIs
    } else if defer {
        SearchStartup::Deferred { clear: watermark is None, from: watermark }
    } else {
        match watermark {
            Some(w) => SearchStartup::CatchUp(w),
            None => SearchStartup::Rebuild,
        }
    }
}

/// How a search index comes up, given its committed watermark.
pub fn search_startup(has_table: bool, defer: bool, watermark: Option<Hlc>) -> (r: SearchStartup)
    ensures
        r == startup_of(has_table, defer, watermark),
{
    if !has_table {
        return SearchStartup::AsIs;
    }
    if defer {
        return SearchStartup::Deferred { clear: watermark.is_none(), from: watermark };
    }
    match watermark {
        Some(w) => SearchStartup::CatchUp(w),
        None => SearchStartup::Rebuild,
    }
}

/// The versions of one row whose maintenance is owed, oldest first.
pub struct VersionChain {
    pub key: Vec<u8>,
    pub versions: Vec<(Hlc, Option<Vec<u8>>)>,
}

pub struct ChainView {
    pub key: Seq<u8>,
    pub versions: Seq<(Hlc, Option<Seq<u8>>)>,
}

/// Versions by what each holds.
pub open spec fn version_views(vs: Seq<(Hlc, Option<Vec<u8>>)>) -> Seq<(Hlc, Option<Seq<u8>>)> {
    vs.map_values(|v: (Hlc, Option<Vec<u8>>)| (v.0, op_view(v.1)))
}

impl View for VersionChain {
    type V = ChainView;

    open spec fn view(&self) -> ChainView {
        ChainView { key: self.key@, versions: version_views(self.versions@) }
    }
}

/// Chains by what each holds.
pub open spec fn chain_views(cs: Seq<VersionChain>) -> Seq<ChainView> {
    cs.map_values(|c: VersionChain| c@)
}

/// Chains with one more version, which is older than the others of its row.
pub open spec fn with_version(cs: Seq<ChainView>, v: RowVersion) -> Seq<ChainView> {
    if cs.len() > 0 && cs.last().key == v.key {
        cs.drop_last().push(
            ChainView { versions: seq![(v.hlc, v.value)] + cs.last().versions, ..cs.last() },
        )
    } else {
        cs.push(ChainView { key: v.key, versions: seq![(v.hlc, v.value)] })
    }
}

/// The chains of a run of versions that come row by row, newest first: those
/// stamped after the watermark.
pub open spec fn chains_of(vs: Seq<RowVersion>, wm: Hlc) -> Seq<ChainView>
    decreases vs.len(),
{
    if vs.len() == 0 {
        Seq::empty()
    } else {
        let before = chains_of(vs.drop_last(), wm);
        if hlc_lt(wm, vs.last().hlc) {
            with_version(before, vs.last())
        } else {
            before
        }
    }
}

fn copy_op(v: &Option<Vec<u8>>) -> (r: Option<Vec<u8>>)
    ensures
        op_view(r) == op_view(*v),
{
    match v {
        Some(b) => Some(copy_bytes(b.as_slice())),
        None => None,
    }
}

/// The chains of the versions stamped after a watermark.
pub fn build_chains(rows: &Vec<VersionedRow>, wm: Hlc) -> (r: Vec<VersionChain>)
    ensures
        chain_views(r@) == chains_of(row_versions(rows@), wm),
{
    let ghost vs = row_versions(rows@);
    let mut out: Vec<VersionChain> = Vec::new();
    let mut i: usize = 0;
    proof {
        assert(vs.take(0) =~= Seq::<RowVersion>::empty());
        assert(chain_views(out@) =~= Seq::<ChainView>::empty());
    }
    while i < rows.len()
        invariant
            i <= rows@.len(),
            vs == row_versions(rows@),
            chain_views(out@) == chains_of(vs.take(i as int), wm),
        decreases rows@.len() - i,
    {
        let ghost before = chain_views(out@);
        proof {
            assert(vs.take(i + 1).drop_last() =~= vs.take(i as int));
            assert(vs.take(i + 1).last() == vs[i as int]);
            assert(vs[i as int] == rows@[i as int]@);
            assert(before.len() == out@.len());
        }
        let row = &rows[i];
        if wm.before(row.hlc) {
            let n: usize = out.len();
            let mut joined = false;
            if n > 0 {
                proof {
                    assert(before.last() == out@[n - 1]@);
                }
                joined = same_bytes(out[n - 1].key.as_slice(), row.key.as_slice());
            }
            if joined {
                let mut last = match out.pop() {
                    Some(c) => c,
                    None => VersionChain { key: Vec::new(), versions: Vec::new() },
                };
                let ghost lv = last@;
                let ghost older = last.versions@;
                last.versions.insert(0, (row.hlc, copy_op(&row.value)));
                proof {
                    assert(last@.versions =~= seq![(row.hlc, op_view(row.value))] + lv.versions);
                }
                out.push(last);
                proof {
                    assert(chain_views(out@) =~= before.drop_last().push(last@));
                }
            } else {
                let mut versions: Vec<(Hlc, Option<Vec<u8>>)> = Vec::new();
                versions.push((row.hlc, copy_op(&row.value)));
                let c = VersionChain { key: copy_bytes(row.key.as_slice()), versions };
                proof {
                    assert(c@.versions =~= seq![(row.hlc, op_view(row.value))]);
                }
                out.push(c);
                proof {
                    assert(chain_views(out@) =~= before.push(c@));
                }
            }
        }
        i = i + 1;
    }
    proof {
        assert(vs.take(vs.len() as int) =~= vs);
    }
    out
}

/// The version of a row that the watermark covers: the latest at or below it,
/// the later listed of two with one stamp.
pub open spec fn base_version(vs: Seq<RowVersion>, key: Seq<u8>, wm: Hlc) -> Option<RowVersion>
    decreases vs.len(),
{
    if vs.len() == 0 {
        None
    } else {
        let before = base_version(vs.drop_last(), key, wm);
        let v = vs.last();
        if v.key != key || hlc_lt(wm, v.hlc) {
            before
        } else {
            match before {
                Some(b) => if hlc_lt(v.hlc, b.hlc) {
                    before
                } else {
                    Some(v)
                },
                None => Some(v),
            }
        }
    }
}

/// The place of the version of a row that the watermark covers, among those in
/// memory.
pub fn find_base(rows: &Vec<VersionedRow>, key: &[u8], wm: Hlc) -> (r: Option<usize>)
    ensures
        match r {
            Some(i) => i < rows@.len() && base_version(row_versions(rows@), key@, wm) == Some(
                rows@[i as int]@,
            ),
            None => base_version(row_versions(rows@), key@, wm) is None,
        },
{
    let ghost vs = row_versions(rows@);
    let mut best: Option<usize> = None;
    let mut i: usize = 0;
    proof {
        assert(vs.take(0) =~= Seq::<RowVersion>::empty());
    }
    while i < rows.len()
        invariant
            i <= rows@.len(),
            vs == row_versions(rows@),
            match best {
                Some(b) => b < i && base_version(vs.take(i as int), key@, wm) == Some(
                    rows@[b as int]@,
                ),
                None => base_version(vs.take(i as int), key@, wm) is None,
            },
        decreases rows@.len() - i,
    {
        proof {
            assert(vs.take(i + 1).drop_last() =~= vs.take(i as int));
            assert(vs.take(i + 1).last() == vs[i as int]);
            assert(vs[i as int] == rows@[i as int]@);
        }
        if same_bytes(rows[i].key.as_slice(), key) && !wm.before(rows[i].hlc) {
            let newer = match best {
                Some(b) => !rows[i].hlc.before(rows[b].hlc),
                None => true,
            };
            if newer {
                best = Some(i);
            }
        }
        i = i + 1;
    }
    proof {
        assert(vs.take(vs.len() as int) =~= vs);
    }
    best
}

/// The version before the one at `i` of a chain over `base`.
pub open spec fn version_before(c: ChainView, base: Option<Seq<u8>>, i: int) -> Option<Seq<u8>> {
    if i == 0 {
        base
    } else {
        c.versions[i - 1].1
    }
}

/// The maintenance of a chain over its base, oldest version first: each takes
/// the row from the version before it.
pub fn chain_tasks(table: &str, chain: &VersionChain, base: &Option<Vec<u8>>) -> (r: Vec<MaintTask>)
    ensures
        r@.len() == chain@.versions.len(),
        forall|i: int|
            #![trigger r@[i]]
            0 <= i < r@.len() ==> r@[i].table@ == table@ && r@[i].key@ == chain@.key && r@[i].hlc
                == chain@.versions[i].0 && op_view(r@[i].old) == version_before(
                chain@,
                op_view(*base),
                i,
            ) && op_view(r@[i].new) == chain@.versions[i].1,
{
    let mut out: Vec<MaintTask> = Vec::new();
    let mut i: usize = 0;
    proof {
        assert(chain@.versions.len() == chain.versions@.len());
    }
    while i < chain.versions.len()
        invariant
            i <= chain.versions@.len(),
            out@.len() == i,
            chain@.versions == version_views(chain.versions@),
            forall|k: int|
                #![trigger out@[k]]
                0 <= k < i ==> out@[k].table@ == table@ && out@[k].key@ == chain@.key && out@[k].hlc
                    == chain@.versions[k].0 && op_view(out@[k].old) == version_before(
                    chain@,
                    op_view(*base),
                    k,
                ) && op_view(out@[k].new) == chain@.versions[k].1,
        decreases chain.versions@.len() - i,
    {
        proof {
            assert(chain@.versions[i as int] == (
                chain.versions@[i as int].0,
                op_view(chain.versions@[i as int].1),
            ));
            if i > 0 {
                assert(chain@.versions[i - 1] == (
                    chain.versions@[i - 1].0,
                    op_view(chain.versions@[i - 1].1),
                ));
            }
        }
        let before = if i == 0 {
            copy_op(base)
        } else {
            copy_op(&chain.versions[i - 1].1)
        };
        out.push(
            MaintTask {
                table: table.to_owned(),
                key: copy_bytes(chain.key.as_slice()),
                hlc: chain.versions[i].0,
                old: before,
                new: copy_op(&chain.versions[i].1),
            },
        );
        i = i + 1;
    }
    out
}

/// The latest stamp of a run of versions that is after `start`.
pub open spec fn latest_version(start: Hlc, vs: Seq<RowVersion>, wm: Hlc) -> Hlc
    decreases vs.len(),
{
    if vs.len() == 0 {
        start
    } else {
        let before = latest_version(start, vs.drop_last(), wm);
        if hlc_lt(wm, vs.last().hlc) {
            hlc_max(before, vs.last().hlc)
        } else {
            before
        }
    }
}

/// The watermark after a table's owed maintenance is replayed: the latest
/// stamp replayed. Nothing where none is owed.
pub fn recovered_watermark(rows: &Vec<VersionedRow>, wm: Hlc) -> (r: Option<Hlc>)
    ensures
        match r {
            Some(h) => h == latest_version(wm, row_versions(rows@), wm) && chains_of(
                row_versions(rows@),
                wm,
            ).len() > 0,
            None => chains_of(row_versions(rows@), wm).len() == 0,
        },
{
    let ghost vs = row_versions(rows@);
    let mut h = wm;
    let mut any = false;
    let mut i: usize = 0;
    proof {
        assert(vs.take(0) =~= Seq::<RowVersion>::empty());
    }
    while i < rows.len()
        invariant
            i <= rows@.len(),
            vs == row_versions(rows@),
            h == latest_version(wm, vs.take(i as int), wm),
            any == (chains_of(vs.take(i as int), wm).len() > 0),
        decreases rows@.len() - i,
    {
        proof {
            assert(vs.take(i + 1).drop_last() =~= vs.take(i as int));
            assert(vs.take(i + 1).last() == vs[i as int]);
            assert(vs[i as int] == rows@[i as int]@);
        }
        if wm.before(rows[i].hlc) {
            h = h.later(rows[i].hlc);
            any = true;
        }
        i = i + 1;
    }
    proof {
        assert(vs.take(vs.len() as int) =~= vs);
    }
    if any {
        Some(h)
    } else {
        None
    }
}

/// Whether a version is in one of the chains.
pub open spec fn in_chain(cs: Seq<ChainView>, v: RowVersion) -> bool {
    exists|c: int, k: int|
        #![trigger cs[c].versions[k]]
        0 <= c < cs.len() && 0 <= k < cs[c].versions.len() && cs[c].key == v.key
            && cs[c].versions[k] == (v.hlc, v.value)
}

proof fn lemma_still_in_chain(cs: Seq<ChainView>, v: RowVersion, added: RowVersion)
    requires
        in_chain(cs, v) || v == added,
    ensures
        in_chain(with_version(cs, added), v),
{
    let out = with_version(cs, added);
    if in_chain(cs, v) {
        let (c, k) = choose|c: int, k: int|
            #![trigger cs[c].versions[k]]
            0 <= c < cs.len() && 0 <= k < cs[c].versions.len() && cs[c].key == v.key
                && cs[c].versions[k] == (v.hlc, v.value);
        if cs.last().key == added.key && c == cs.len() - 1 {
            assert(out[c].versions[k + 1] == (v.hlc, v.value));
        } else {
            assert(out[c] == cs[c]);
            assert(out[c].versions[k] == (v.hlc, v.value));
        }
    } else {
        assert(out[out.len() - 1].versions[0] == (added.hlc, added.value));
    }
}

/// No write past the watermark is left out of the replay: each is in a chain
/// of its row, and the watermark recorded afterwards covers them all.
pub proof fn every_owed_write_is_replayed(vs: Seq<RowVersion>, wm: Hlc, i: int)
    requires
        0 <= i < vs.len(),
        hlc_lt(wm, vs[i].hlc),
    ensures
        in_chain(chains_of(vs, wm), vs[i]),
        !hlc_lt(latest_version(wm, vs, wm), vs[i].hlc),
    decreases vs.len(),
{
    let init = vs.drop_last();
    if i < init.len() {
        assert(init[i] == vs[i]);
        every_owed_write_is_replayed(init, wm, i);
    }
    if hlc_lt(wm, vs.last().hlc) {
        lemma_still_in_chain(chains_of(init, wm), vs[i], vs.last());
    }
}

/// Whether the versions of each row come newest first.
pub open spec fn newest_first(vs: Seq<RowVersion>) -> bool {
    forall|i: int, j: int|
        0 <= i < j < vs.len() && (#[trigger] vs[i]).key == (#[trigger] vs[j]).key ==> hlc_lt(
            vs[j].hlc,
            vs[i].hlc,
        )
}

/// Whether a chain's versions come oldest first.
pub open spec fn oldest_first(c: ChainView) -> bool {
    forall|i: int, j: int|
        0 <= i < j < c.versions.len() ==> hlc_lt(
            (#[trigger] c.versions[i]).0,
            (#[trigger] c.versions[j]).0,
        )
}

/// Whether a row has a listed version with this stamp.
pub open spec fn listed(vs: Seq<RowVersion>, key: Seq<u8>, hlc: Hlc) -> bool {
    exists|i: int| 0 <= i < vs.len() && (#[trigger] vs[i]).key == key && vs[i].hlc == hlc
}

/// Whether every version of the chains is one of the listed ones.
pub open spec fn chains_from(cs: Seq<ChainView>, vs: Seq<RowVersion>) -> bool {
    forall|c: int, k: int|
        #![trigger cs[c].versions[k]]
        0 <= c < cs.len() && 0 <= k < cs[c].versions.len() ==> listed(
            vs,
            cs[c].key,
            cs[c].versions[k].0,
        )
}

/// Each chain replays its row's versions oldest first, so that the last one
/// replayed is the row's latest.
pub proof fn chains_replay_oldest_first(vs: Seq<RowVersion>, wm: Hlc)
    requires
        newest_first(vs),
    ensures
        chains_from(chains_of(vs, wm), vs),
        forall|c: int|
            0 <= c < chains_of(vs, wm).len() ==> oldest_first(#[trigger] chains_of(vs, wm)[c]),
    decreases vs.len(),
{
    if vs.len() == 0 {
        assert(chains_of(vs, wm).len() == 0);
        assert(chains_from(chains_of(vs, wm), vs));
    } else {
        let init = vs.drop_last();
        let v = vs.last();
        let before = chains_of(init, wm);
        let cs = chains_of(vs, wm);
        assert forall|i: int, j: int|
            0 <= i < j < init.len() && (#[trigger] init[i]).key == (
            #[trigger] init[j]).key implies hlc_lt(init[j].hlc, init[i].hlc) by {
            assert(vs[i] == init[i]);
            assert(vs[j] == init[j]);
        }
        chains_replay_oldest_first(init, wm);
        assert forall|c: int, k: int|
            #![trigger cs[c].versions[k]]
            0 <= c < cs.len() && 0 <= k < cs[c].versions.len() implies listed(
            vs,
            cs[c].key,
            cs[c].versions[k].0,
        ) by {
            if c < before.len() && cs[c] == before[c] {
                assert(before[c].versions[k] == cs[c].versions[k]);
                assert(listed(init, before[c].key, before[c].versions[k].0));
                let i = choose|i: int|
                    0 <= i < init.len() && (#[trigger] init[i]).key == before[c].key && init[i].hlc
                        == before[c].versions[k].0;
                assert(vs[i] == init[i]);
            } else if k == 0 {
                assert(vs[vs.len() - 1] == v);
            } else {
                assert(before[c].versions[k - 1] == cs[c].versions[k]);
                assert(listed(init, before[c].key, before[c].versions[k - 1].0));
                let i = choose|i: int|
                    0 <= i < init.len() && (#[trigger] init[i]).key == before[c].key && init[i].hlc
                        == before[c].versions[k - 1].0;
                assert(vs[i] == init[i]);
            }
        }
        assert(chains_from(cs, vs));
        assert forall|c: int| 0 <= c < cs.len() implies oldest_first(#[trigger] cs[c]) by {
            if c < before.len() && cs[c] == before[c] {
                assert(oldest_first(before[c]));
            } else if c < before.len() {
                let b = before[c];
                assert(oldest_first(b));
                assert forall|i: int, j: int| 0 <= i < j < cs[c].versions.len() implies hlc_lt(
                    (#[trigger] cs[c].versions[i]).0,
                    (#[trigger] cs[c].versions[j]).0,
                ) by {
                    assert(cs[c].versions[j] == b.versions[j - 1]);
                    if i == 0 {
                        assert(listed(init, before[c].key, before[c].versions[j - 1].0));
                        let p = choose|p: int|
                            0 <= p < init.len() && (#[trigger] init[p]).key == before[c].key
                                && init[p].hlc == before[c].versions[j - 1].0;
                        assert(vs[p] == init[p]);
                        assert(vs[vs.len() - 1] == v);
                        assert(vs[p].key == vs[vs.len() - 1].key);
                    } else {
                        assert(cs[c].versions[i] == b.versions[i - 1]);
                    }
                }
            }
        }
    }
}

/// The watermark behind which a table's maintenance is owed: none where no
/// index needs its documents, or no watermark is known.
pub open spec fn owed_since(v: CatalogView, table: Seq<char>, watermark: Option<Hlc>) -> Option<Hlc> {
    if v.tables.dom().contains(table) && (any_on::<IndexDef>(v.indexes, table) || any_on::<
        VectorIndexDef,
    >(v.vector_indexes, table) || any_on::<SearchIndexDef>(v.search_indexes, table) || any_on::<
        GeoIndexDef,
    >(v.geo_indexes, table)) {
        watermark
    } else {
        None
    }
}

impl Database {
    /// Whether a table's owed maintenance is replayed when it is opened: some
    /// index on it needs the documents, and a watermark is known.
    pub fn recovers(&self, table: &str, watermark: Option<Hlc>) -> (r: Option<Hlc>)
        requires
            self.wf(),
        ensures
            r == owed_since(self@.cat, table@, watermark),
    {
        if self.catalog.tables.contains(&table.to_owned()) && self.needs_doc_on_write(table) {
            watermark
        } else {
            None
        }
    }
}

/// What catching an index up does with the rows behind its watermark: the
/// place of each row that is replayed, and what it does.
pub open spec fn replayed<H: Fn(&Vec<u8>) -> (bool, bool)>(
    h: H,
    vectors: bool,
    watermark: Option<Hlc>,
    rows: Seq<VersionedRow>,
) -> Seq<(int, ReplayAction)>
    decreases rows.len(),
{
    if rows.len() == 0 {
        Seq::empty()
    } else {
        let before = replayed(h, vectors, watermark, rows.drop_last());
        if replays(watermark, rows.last().hlc) {
            before.push((rows.len() - 1, row_action(h, vectors, rows.last().value)))
        } else {
            before
        }
    }
}

/// Whether a payload is a document, and whether that holds the index's vector.
pub open spec fn payload<H: Fn(&Vec<u8>) -> (bool, bool)>(h: H, bytes: Seq<u8>) -> (bool, bool) {
    choose|r: (bool, bool)| payload_is(h, bytes, r)
}

/// Whether this was said of a payload.
pub open spec fn payload_is<H: Fn(&Vec<u8>) -> (bool, bool)>(
    h: H,
    bytes: Seq<u8>,
    r: (bool, bool),
) -> bool {
    exists|b: Vec<u8>| b@ == bytes && #[trigger] call_ensures(h, (&b,), r)
}

/// Whether the same is always said of a payload.
pub open spec fn is_payload_test<H: Fn(&Vec<u8>) -> (bool, bool)>(h: H) -> bool {
    &&& forall|b: &Vec<u8>| call_requires(h, (b,))
    &&& forall|a: &Vec<u8>, b: &Vec<u8>, x: (bool, bool), y: (bool, bool)|
        #![trigger call_ensures(h, (a,), x), call_ensures(h, (b,), y)]
        a@ == b@ && call_ensures(h, (a,), x) && call_ensures(h, (b,), y) ==> x == y
}

/// What a replayed row does to a vector index, or to a search index.
pub open spec fn row_action<H: Fn(&Vec<u8>) -> (bool, bool)>(
    h: H,
    vectors: bool,
    value: Option<Vec<u8>>,
) -> ReplayAction {
    match value {
        None => ReplayAction::Remove,
        Some(b) => if !payload(h, b@).0 {
            ReplayAction::Skip
        } else if !vectors || payload(h, b@).1 {
            ReplayAction::Put
        } else {
            ReplayAction::Remove
        },
    }
}

/// Replayed rows by their places.
pub open spec fn placed(steps: Seq<(usize, ReplayAction)>) -> Seq<(int, ReplayAction)> {
    steps.map_values(|s: (usize, ReplayAction)| (s.0 as int, s.1))
}

/// The stamps of rows.
pub open spec fn stamps_of(rows: Seq<VersionedRow>) -> Seq<Hlc> {
    rows.map_values(|r: VersionedRow| r.hlc)
}

/// Catches an index up on the rows of its table, in the order that they come
/// in: which of them are replayed and what each does, and the watermark that
/// the index is complete up to afterwards. Without a watermark it starts from
/// scratch.
pub fn catch_up<H: Fn(&Vec<u8>) -> (bool, bool)>(
    h: &H,
    vectors: bool,
    watermark: Option<Hlc>,
    rows: &Vec<VersionedRow>,
) -> (r: (Vec<(usize, ReplayAction)>, Hlc))
    requires
        is_payload_test(*h),
    ensures
        placed(r.0@) == replayed(*h, vectors, watermark, rows@),
        r.1 == max_seen(
            watermark,
            match watermark {
                Some(w) => w,
                None => hlc_min(),
            },
            stamps_of(rows@),
        ),
{
    let mut progress = CatchUp::new(watermark);
    let mut steps: Vec<(usize, ReplayAction)> = Vec::new();
    let ghost start = progress.max_seen;
    let mut i: usize = 0;
    proof {
        assert(rows@.take(0) =~= Seq::<VersionedRow>::empty());
        assert(stamps_of(rows@.take(0)) =~= Seq::<Hlc>::empty());
        assert(placed(steps@) =~= Seq::<(int, ReplayAction)>::empty());
    }
    while i < rows.len()
        invariant
            is_payload_test(*h),
            i <= rows@.len(),
            progress.watermark == watermark,
            progress.max_seen == max_seen(watermark, start, stamps_of(rows@.take(i as int))),
            placed(steps@) == replayed(*h, vectors, watermark, rows@.take(i as int)),
        decreases rows@.len() - i,
    {
        let ghost before = placed(steps@);
        proof {
            let more = rows@.take(i + 1);
            assert(more.drop_last() =~= rows@.take(i as int));
            assert(more.last() == rows@[i as int]);
            assert(stamps_of(more).drop_last() =~= stamps_of(rows@.take(i as int)));
            assert(stamps_of(more).last() == rows@[i as int].hlc);
        }
        if progress.take_in(rows[i].hlc) {
            let action = match &rows[i].value {
                None => if vectors {
                    vector_replay(false, false, false)
                } else {
                    search_replay(false, false)
                },
                Some(bytes) => {
                    let (decoded, has_vector) = h(bytes);
                    proof {
                        let r = (decoded, has_vector);
                        assert(call_ensures(*h, (bytes,), r));
                        assert(payload_is(*h, bytes@, r));
                        let o = payload(*h, bytes@);
                        assert(payload_is(*h, bytes@, o));
                        let b = choose|b: Vec<u8>|
                            b@ == bytes@ && #[trigger] call_ensures(*h, (&b,), o);
                        assert(call_ensures(*h, (&b,), o));
                    }
                    if vectors {
                        vector_replay(true, decoded, has_vector)
                    } else {
                        search_replay(true, decoded)
                    }
                },
            };
            steps.push((i, action));
            proof {
                assert(placed(steps@) =~= before.push((i as int, action)));
            }
        }
        i = i + 1;
    }
    proof {
        assert(rows@.take(rows@.len() as int) =~= rows@);
    }
    (steps, progress.max_seen)
}

/// A catch-up replays exactly the rows stamped after the watermark: each of
/// them at its place, and none twice.
pub proof fn catch_up_replays_what_is_newer<H: Fn(&Vec<u8>) -> (bool, bool)>(
    h: H,
    vectors: bool,
    watermark: Option<Hlc>,
    rows: Seq<VersionedRow>,
)
    ensures
        forall|i: int|
            0 <= i < rows.len() ==> (replays(watermark, (#[trigger] rows[i]).hlc) <==> replayed(
                h,
                vectors,
                watermark,
                rows,
            ).contains((i, row_action(h, vectors, rows[i].value)))),
        forall|a: int, b: int|
            0 <= a < b < replayed(h, vectors, watermark, rows).len() ==> (#[trigger] replayed(
                h,
                vectors,
                watermark,
                rows,
            )[a]).0 < (#[trigger] replayed(h, vectors, watermark, rows)[b]).0,
        forall|a: int|
            0 <= a < replayed(h, vectors, watermark, rows).len() ==> 0 <= (#[trigger] replayed(
                h,
                vectors,
                watermark,
                rows,
            )[a]).0 < rows.len(),
    decreases rows.len(),
{
    if rows.len() > 0 {
        let init = rows.drop_last();
        catch_up_replays_what_is_newer(h, vectors, watermark, init);
        let old = replayed(h, vectors, watermark, init);
        let all = replayed(h, vectors, watermark, rows);
        assert forall|a: int| 0 <= a < old.len() implies 0 <= (#[trigger] old[a]).0
            < init.len() by {}
        assert forall|i: int| 0 <= i < rows.len() implies (replays(watermark, (#[trigger] rows[i]).hlc)
            <==> all.contains((i, row_action(h, vectors, rows[i].value)))) by {
            let step = (i, row_action(h, vectors, rows[i].value));
            if i < init.len() {
                assert(init[i] == rows[i]);
                if all.contains(step) {
                    let a = choose|a: int| 0 <= a < all.len() && all[a] == step;
                    assert(old[a] == step);
                }
                if old.contains(step) {
                    let a = choose|a: int| 0 <= a < old.len() && old[a] == step;
                    assert(all[a] == step);
                }
            } else {
                if replays(watermark, rows[i].hlc) {
                    assert(all[all.len() - 1] == step);
                } else if all.contains(step) {
                    let a = choose|a: int| 0 <= a < all.len() && all[a] == step;
                    assert(old[a].0 == i);
                }
            }
        }
    }
}

/// A row table's store: its name, whether it is kept in memory only, and how
/// long its rows live.
pub struct TableStore {
    pub name: String,
    pub memory: bool,
    pub ttl_ms: Option<i64>,
}

/// The stores of row tables, in name order.
pub open spec fn table_stores(es: Seq<(String, TableDef)>, ts: Seq<TableStore>) -> bool {
    &&& ts.len() == es.len()
    &&& forall|i: int|
        #![trigger ts[i]]
        #![trigger es[i]]
        0 <= i < ts.len() ==> ts[i].name@ == es[i].0@ && ts[i].memory == es[i].1.memory
            && ts[i].ttl_ms == es[i].1.ttl_ms
}

/// The watermark that a search index has committed, if it has one.
pub open spec fn committed_of<W: Fn(&String) -> Option<Hlc>>(w: W, name: String) -> Option<Hlc> {
    choose|r: Option<Hlc>| call_ensures(w, (&name,), r)
}

/// Whether a function gives the committed watermarks of search indexes, always
/// the same.
pub open spec fn is_mark_source<W: Fn(&String) -> Option<Hlc>>(w: W) -> bool {
    &&& forall|n: &String| call_requires(w, (n,))
    &&& forall|n: &String, a: Option<Hlc>, b: Option<Hlc>|
        call_ensures(w, (n,), a) && call_ensures(w, (n,), b) ==> a == b
}

/// How each search index comes up, in name order.
pub open spec fn startups<W: Fn(&String) -> Option<Hlc>>(
    w: W,
    defer: bool,
    tables: Set<Seq<char>>,
    es: Seq<(String, SearchIndexDef)>,
) -> Seq<(Seq<char>, SearchStartup)> {
    es.map_values(
        |e: (String, SearchIndexDef)|
            (
                e.0@,
                startup_of(tables.contains(e.1.table@), defer, committed_of(w, e.0)),
            ),
    )
}

/// The catch-ups that are left to the background, in order.
pub open spec fn deferred(ss: Seq<(Seq<char>, SearchStartup)>) -> Seq<(Seq<char>, Option<Hlc>)>
    decreases ss.len(),
{
    if ss.len() == 0 {
        Seq::empty()
    } else {
        match ss.last().1 {
            SearchStartup::Deferred { from, .. } => deferred(ss.drop_last()).push(
                (ss.last().0, from),
            ),
            _ => deferred(ss.drop_last()),
        }
    }
}

/// The indexes that catch-ups are owed to.
pub open spec fn names_owed(cs: Seq<(Seq<char>, Option<Hlc>)>) -> Set<Seq<char>> {
    Set::new(|n: Seq<char>| exists|i: int| 0 <= i < cs.len() && (#[trigger] cs[i]).0 == n)
}

proof fn lemma_names_owed(cs: Seq<(Seq<char>, Option<Hlc>)>, c: (Seq<char>, Option<Hlc>))
    ensures
        names_owed(cs.push(c)) == names_owed(cs).insert(c.0),
{
    let more = cs.push(c);
    assert forall|n: Seq<char>| names_owed(more).contains(n) == names_owed(cs).insert(
        c.0,
    ).contains(n) by {
        if names_owed(cs).contains(n) {
            let i = choose|i: int| 0 <= i < cs.len() && (#[trigger] cs[i]).0 == n;
            assert(more[i].0 == n);
        }
        if n == c.0 {
            assert(more[cs.len() as int].0 == n);
        }
        if names_owed(more).contains(n) {
            let i = choose|i: int| 0 <= i < more.len() && (#[trigger] more[i]).0 == n;
            if i < cs.len() {
                assert(cs[i].0 == n);
            }
        }
    }
    assert(names_owed(more) =~= names_owed(cs).insert(c.0));
}

/// Start-ups by the names of their indexes.
pub open spec fn startup_views(ss: Seq<(String, SearchStartup)>) -> Seq<(Seq<char>, SearchStartup)> {
    ss.map_values(|s: (String, SearchStartup)| (s.0@, s.1))
}

/// Whether this is what a journal holds of a transaction that a crash cut: its
/// writes, or nothing where the transaction was never durably committed.
pub open spec fn reads_journal<H: Fn(&Vec<u8>) -> bool>(
    buf: Seq<u8>,
    is_document: H,
    r: Option<TxnWrites>,
) -> bool {
    match r {
        Some(w) => w.wf() && parse_journal(buf) is Some && writes_view(w)
            == crate::journal::replayed(parse_journal(buf)->0) && documents_accepted(
            parse_journal(buf)->0,
            is_document,
        ),
        None => parse_journal(buf) is None || document_rejected(parse_journal(buf)->0, is_document),
    }
}

fn plan_startups<W: Fn(&String) -> Option<Hlc>>(catalog: &Catalog, defer: bool, committed: &W) -> (r: (
    Vec<(String, SearchStartup)>,
    Vec<(String, Option<Hlc>)>,
    NameSet,
))
    requires
        catalog.wf(),
        is_mark_source(*committed),
    ensures
        ({
            let ss = startups(
                *committed,
                defer,
                catalog.tables@.dom(),
                catalog.search_indexes.entries@,
            );
            startup_views(r.0@) == ss && catchup_views(r.1@) == deferred(ss) && r.2.wf() && r.2@
                == names_owed(deferred(ss))
        }),
{
    let ghost es = catalog.search_indexes.entries@;
    let ghost ts = catalog.tables@.dom();
    let mut all: Vec<(String, SearchStartup)> = Vec::new();
    let mut owed: Vec<(String, Option<Hlc>)> = Vec::new();
    let mut waiting = NameSet::new();
    let mut i: usize = 0;
    proof {
        assert(names_owed(Seq::empty()) =~= Set::<Seq<char>>::empty());
        assert(startup_views(all@) =~= startups(*committed, defer, ts, es.take(0)));
        assert(catchup_views(owed@) =~= Seq::<(Seq<char>, Option<Hlc>)>::empty());
    }
    while i < catalog.search_indexes.len()
        invariant
            catalog.wf(),
            is_mark_source(*committed),
            es == catalog.search_indexes.entries@,
            ts == catalog.tables@.dom(),
            i <= es.len(),
            startup_views(all@) == startups(*committed, defer, ts, es.take(i as int)),
            catchup_views(owed@) == deferred(startups(*committed, defer, ts, es.take(i as int))),
            waiting.wf(),
            waiting@ == names_owed(catchup_views(owed@)),
        decreases es.len() - i,
    {
        let ghost before = startup_views(all@);
        let ghost waits = catchup_views(owed@);
        let name = catalog.search_indexes.key_at(i);
        let here = catalog.tables.contains(&catalog.search_indexes.value_at(i).table);
        let mark = committed(name);
        proof {
            assert(call_ensures(*committed, (name,), mark));
            assert(committed_of(*committed, *name) == mark);
        }
        let how = search_startup(here, defer, mark);
        all.push((name.clone(), how));
        if let SearchStartup::Deferred { from, .. } = how {
            owed.push((name.clone(), from));
            waiting.add_name(name.clone());
            proof {
                assert(catchup_views(owed@) =~= waits.push((name@, from)));
                lemma_names_owed(waits, (name@, from));
            }
        }
        proof {
            let now = startups(*committed, defer, ts, es.take(i + 1));
            assert(startup_views(all@) =~= before.push((name@, how)));
            assert(now =~= before.push((name@, how)));
            assert(now.drop_last() =~= before);
        }
        i = i + 1;
    }
    proof {
        assert(es.take(es.len() as int) =~= es);
    }
    (all, owed, waiting)
}

/// Whatever is deferred is owed a catch-up.
proof fn lemma_deferred_is_owed(ss: Seq<(Seq<char>, SearchStartup)>, i: int)
    requires
        0 <= i < ss.len(),
        ss[i].1 is Deferred,
    ensures
        names_owed(deferred(ss)).contains(ss[i].0),
    decreases ss.len(),
{
    let init = ss.drop_last();
    if i < init.len() {
        lemma_deferred_is_owed(init, i);
        assert(init[i] == ss[i]);
    }
    if let SearchStartup::Deferred { from, .. } = ss.last().1 {
        lemma_names_owed(deferred(init), (ss.last().0, from));
    }
}

/// A search index whose startup was deferred gives no part of an answer: every
/// search on it is refused as rebuilding until its catch-up is done, and from
/// then on is not.
pub proof fn a_deferred_index_refuses_searches<W: Fn(&String) -> Option<Hlc>>(
    w: W,
    catalog: Catalog,
    v: DbView,
    i: int,
    table: Seq<char>,
)
    requires
        catalog.wf(),
        0 <= i < catalog.search_indexes.entries@.len(),
        catalog@.tables.dom().contains(catalog.search_indexes.entries@[i].1.table@),
        v.building_searches == names_owed(
            deferred(
                startups(w, true, catalog@.tables.dom(), catalog.search_indexes.entries@),
            ),
        ),
    ensures
        ({
            let name = catalog.search_indexes.entries@[i].0@;
            let caught_up = DbView {
                building_searches: v.building_searches.remove(name),
                ..v
            };
            &&& search_check(v, name, table, true, true) == Err::<(), ErrorView>(
                ErrorView::Unsupported(
                    "search index '"@ + split_name(name).1
                        + "' is rebuilding after restart — retry shortly"@,
                ),
            )
            &&& search_check(caught_up, name, table, true, true) is Ok
        }),
{
    let ss = startups(w, true, catalog@.tables.dom(), catalog.search_indexes.entries@);
    assert(ss[i].1 is Deferred);
    lemma_deferred_is_owed(ss, i);
}

/// What a data directory holds once it is open.
pub struct Opened {
    pub db: Database,
    /// The stamp that the schema clock starts behind.
    pub clock: Hlc,
    /// The stores of the row tables.
    pub tables: Vec<TableStore>,
    /// The secondary indexes that have a store.
    pub indexes: Vec<String>,
    /// What builds the roles and their edges.
    pub roles: Vec<RoleOp>,
    /// The watermarks of deferred maintenance.
    pub marks: AppliedWatermarks,
    /// How each search index comes up.
    pub searches: Vec<(String, SearchStartup)>,
    /// The writes of a transaction whose commit a crash cut.
    pub txn: Option<TxnWrites>,
}

impl Database {
    /// Opens a database over its loaded catalog and the watermarks that were
    /// written, if they can be read. The schema clock starts behind every
    /// recorded stamp, so that no new statement is stamped before one that
    /// was already carried out. `journal` is what a cut commit left, of which
    /// `is_document` tells the payloads that are documents. `defer` leaves the
    /// catch-up of search indexes to the background, and `committed` gives the
    /// watermark of each. `known` tells the names of privileges.
    pub fn open_with_options<
        F: Fn(&str) -> bool,
        W: Fn(&String) -> Option<Hlc>,
        H: Fn(&Vec<u8>) -> bool,
    >(
        catalog: Catalog,
        written: Option<Vec<u8>>,
        journal: Option<Vec<u8>>,
        defer: bool,
        known: &F,
        committed: &W,
        is_document: H,
    ) -> (r: Opened)
        requires
            catalog.wf(),
            is_name_test(*known),
            is_mark_source(*committed),
            forall|v: &Vec<u8>| call_requires(is_document, (v,)),
        ensures
            r.db.wf(),
            r.db@ == (DbView {
                cat: catalog@,
                building_vectors: Set::empty(),
                building_searches: names_owed(
                    deferred(
                        startups(
                            *committed,
                            defer,
                            catalog@.tables.dom(),
                            catalog.search_indexes.entries@,
                        ),
                    ),
                ),
                pending_backfills: Seq::empty(),
                pending_vector_backfills: Seq::empty(),
                pending_geo_backfills: interrupted(catalog.geo_indexes.entries@),
                pending_search_catchups: deferred(
                    startups(
                        *committed,
                        defer,
                        catalog@.tables.dom(),
                        catalog.search_indexes.entries@,
                    ),
                ),
            }),
            startup_views(r.searches@) == startups(
                *committed,
                defer,
                catalog@.tables.dom(),
                catalog.search_indexes.entries@,
            ),
            match journal {
                Some(b) => reads_journal(b@, is_document, r.txn),
                None => r.txn is None,
            },
            r.clock == latest_stamp(catalog.schema_versions.entries@),
            table_stores(catalog.tables.entries@, r.tables@),
            views(r.indexes@) == stored(catalog.indexes.entries@),
            role_op_views(r.roles@) == create_ops(catalog.auth_roles.entries@) + state_ops(
                *known,
                catalog.auth_roles.entries@,
            ),
            r.marks.wf(),
            r.marks@ == (match written {
                Some(b) => match watermark_parse(b@) {
                    Some(ts) => read_back(ts),
                    None => Map::<Seq<char>, Hlc>::empty(),
                },
                None => Map::<Seq<char>, Hlc>::empty(),
            }),
    {
        let clock = seed_stamp(&catalog.schema_versions);
        let ghost es = catalog.tables.entries@;
        let mut tables: Vec<TableStore> = Vec::new();
        let mut i: usize = 0;
        while i < catalog.tables.len()
            invariant
                catalog.wf(),
                es == catalog.tables.entries@,
                i <= es.len(),
                table_stores(es.take(i as int), tables@),
            decreases es.len() - i,
        {
            let def = catalog.tables.value_at(i);
            tables.push(
                TableStore {
                    name: catalog.tables.key_at(i).clone(),
                    memory: def.memory,
                    ttl_ms: def.ttl_ms,
                },
            );
            i = i + 1;
        }
        proof {
            assert(es.take(es.len() as int) =~= es);
        }
        let marks = match &written {
            Some(b) => AppliedWatermarks::load(b.as_slice()),
            None => AppliedWatermarks::new(),
        };
        let (searches, owed, waiting) = plan_startups(&catalog, defer, committed);
        proof {
            assert(catalog.tables@.dom() =~= catalog@.tables.dom());
        }
        let txn = match &journal {
            Some(b) => decode_txn_journal(b.as_slice(), is_document),
            None => None,
        };
        let mut db = Database::reopen(catalog);
        db.pending_search_catchups = owed;
        db.building_searches = waiting;
        let indexes = db.stored_indexes();
        let roles = db.build_role_store(known);
        Opened { db, clock, tables, indexes, roles, marks, searches, txn }
    }
}

/// A maintenance task by what it holds.
pub struct TaskView {
    pub table: Seq<char>,
    pub key: Seq<u8>,
    pub hlc: Hlc,
    pub old: Option<Seq<u8>>,
    pub new: Option<Seq<u8>>,
}

/// Tasks by what they hold.
pub open spec fn task_views(ts: Seq<MaintTask>) -> Seq<TaskView> {
    ts.map_values(
        |t: MaintTask|
            TaskView {
                table: t.table@,
                key: t.key@,
                hlc: t.hlc,
                old: op_view(t.old),
                new: op_view(t.new),
            },
    )
}

/// The maintenance of a chain over its base, oldest version first.
pub open spec fn chain_replay(table: Seq<char>, c: ChainView, base: Option<Seq<u8>>) -> Seq<TaskView> {
    Seq::new(
        c.versions.len(),
        |i: int|
            TaskView {
                table,
                key: c.key,
                hlc: c.versions[i].0,
                old: version_before(c, base, i),
                new: c.versions[i].1,
            },
    )
}

/// Whether a key's row was said to be this.
pub open spec fn says_row<F: Fn(&Vec<u8>) -> Result<Option<Vec<u8>>, EngineError>>(
    f: F,
    key: Seq<u8>,
    r: Result<Option<Seq<u8>>, EngineError>,
) -> bool {
    exists|k: Vec<u8>, o: Result<Option<Vec<u8>>, EngineError>| #[trigger]
        call_ensures(f, (&k,), o) && k@ == key && read_view(o) == r
}

/// A row that was read, by its bytes.
pub open spec fn read_view(o: Result<Option<Vec<u8>>, EngineError>) -> Result<
    Option<Seq<u8>>,
    EngineError,
> {
    match o {
        Ok(v) => Ok(op_view(v)),
        Err(e) => Err(e),
    }
}

/// The row of a key as it was last flushed.
pub open spec fn flushed_row<F: Fn(&Vec<u8>) -> Result<Option<Vec<u8>>, EngineError>>(
    f: F,
    key: Seq<u8>,
) -> Result<Option<Seq<u8>>, EngineError> {
    choose|r: Result<Option<Seq<u8>>, EngineError>| says_row(f, key, r)
}

/// Whether a function reads rows by their keys, always the same.
pub open spec fn is_key_reader<F: Fn(&Vec<u8>) -> Result<Option<Vec<u8>>, EngineError>>(f: F) -> bool {
    &&& forall|k: &Vec<u8>| call_requires(f, (k,))
    &&& forall|
        k: &Vec<u8>,
        l: &Vec<u8>,
        x: Result<Option<Vec<u8>>, EngineError>,
        y: Result<Option<Vec<u8>>, EngineError>,
    |
        #![trigger call_ensures(f, (k,), x), call_ensures(f, (l,), y)]
        k@ == l@ && call_ensures(f, (k,), x) && call_ensures(f, (l,), y) ==> read_view(x)
            == read_view(y)
}

/// The version that a chain starts over: the one in memory that the watermark
/// covers, else the flushed one.
pub open spec fn chain_base<F: Fn(&Vec<u8>) -> Result<Option<Vec<u8>>, EngineError>>(
    f: F,
    vs: Seq<RowVersion>,
    key: Seq<u8>,
    wm: Hlc,
) -> Result<Option<Seq<u8>>, EngineError> {
    match base_version(vs, key, wm) {
        Some(v) => Ok(v.value),
        None => flushed_row(f, key),
    }
}

/// The maintenance of chains, one after the other; the first base that cannot
/// be read fails the whole.
pub open spec fn chains_replay<F: Fn(&Vec<u8>) -> Result<Option<Vec<u8>>, EngineError>>(
    f: F,
    table: Seq<char>,
    vs: Seq<RowVersion>,
    wm: Hlc,
    cs: Seq<ChainView>,
) -> Result<Seq<TaskView>, EngineError>
    decreases cs.len(),
{
    if cs.len() == 0 {
        Ok(Seq::empty())
    } else {
        match chains_replay(f, table, vs, wm, cs.drop_last()) {
            Err(e) => Err(e),
            Ok(before) => match chain_base(f, vs, cs.last().key, wm) {
                Err(e) => Err(e),
                Ok(base) => Ok(before + chain_replay(table, cs.last(), base)),
            },
        }
    }
}

proof fn lemma_replay_fails<F: Fn(&Vec<u8>) -> Result<Option<Vec<u8>>, EngineError>>(
    f: F,
    table: Seq<char>,
    vs: Seq<RowVersion>,
    wm: Hlc,
    cs: Seq<ChainView>,
    n: int,
)
    requires
        0 <= n <= cs.len(),
        chains_replay(f, table, vs, wm, cs.take(n)) is Err,
    ensures
        chains_replay(f, table, vs, wm, cs) == chains_replay(f, table, vs, wm, cs.take(n)),
    decreases cs.len() - n,
{
    if n == cs.len() {
        assert(cs.take(n) =~= cs);
    } else {
        assert(cs.take(n + 1).drop_last() =~= cs.take(n));
        lemma_replay_fails(f, table, vs, wm, cs, n + 1);
    }
}

fn find_chain_base<F: Fn(&Vec<u8>) -> Result<Option<Vec<u8>>, EngineError>>(
    rows: &Vec<VersionedRow>,
    key: &Vec<u8>,
    wm: Hlc,
    flushed: &F,
) -> (r: Result<Option<Vec<u8>>, EngineError>)
    requires
        is_key_reader(*flushed),
    ensures
        read_view(r) == chain_base(*flushed, row_versions(rows@), key@, wm),
{
    match find_base(rows, key.as_slice(), wm) {
        Some(i) => Ok(copy_op(&rows[i].value)),
        None => {
            let r = flushed(key);
            proof {
                assert(call_ensures(*flushed, (key,), r));
                assert(says_row(*flushed, key@, read_view(r)));
                let o = flushed_row(*flushed, key@);
                assert(says_row(*flushed, key@, o));
                let (k, x) = choose|k: Vec<u8>, x: Result<Option<Vec<u8>>, EngineError>| #[trigger]
                    call_ensures(*flushed, (&k,), x) && k@ == key@ && read_view(x) == o;
                assert(call_ensures(*flushed, (&k,), x));
            }
            r
        },
    }
}

impl Database {
    /// The maintenance of a table that a crash left owed: the tasks in the
    /// order in which they are to be replayed, and the table's watermark
    /// afterwards. `mark` is the watermark that was written, `rows` are the
    /// versions in memory, row by row, newest first, and `flushed` gives a row
    /// as it was last flushed. Nothing where none is owed.
    pub fn recover_deferred_maintenance<F: Fn(&Vec<u8>) -> Result<Option<Vec<u8>>, EngineError>>(
        &self,
        table: &str,
        mark: Option<Hlc>,
        rows: &Vec<VersionedRow>,
        flushed: &F,
    ) -> (r: Result<Option<(Vec<MaintTask>, Hlc)>, EngineError>)
        requires
            self.wf(),
            is_key_reader(*flushed),
        ensures
            match owed_since(self@.cat, table@, mark) {
                None => r matches Ok(None),
                Some(wm) => {
                    let vs = row_versions(rows@);
                    let cs = chains_of(vs, wm);
                    if cs.len() == 0 {
                        r matches Ok(None)
                    } else {
                        match chains_replay(*flushed, table@, vs, wm, cs) {
                            Err(e) => r == Err::<Option<(Vec<MaintTask>, Hlc)>, EngineError>(e),
                            Ok(want) => r matches Ok(Some((tasks, h))) && task_views(tasks@) == want
                                && h == latest_version(wm, vs, wm),
                        }
                    }
                },
            },
    {
        let wm = match self.recovers(table, mark) {
            None => {
                return Ok(None);
            },
            Some(wm) => wm,
        };
        let after = match recovered_watermark(rows, wm) {
            None => {
                return Ok(None);
            },
            Some(h) => h,
        };
        let chains = build_chains(rows, wm);
        let ghost vs = row_versions(rows@);
        let ghost cs = chain_views(chains@);
        let mut tasks: Vec<MaintTask> = Vec::new();
        let mut i: usize = 0;
        proof {
            assert(cs.take(0) =~= Seq::<ChainView>::empty());
            assert(task_views(tasks@) =~= Seq::<TaskView>::empty());
        }
        while i < chains.len()
            invariant
                is_key_reader(*flushed),
                owed_since(self@.cat, table@, mark) == Some(wm),
                vs == row_versions(rows@),
                cs == chain_views(chains@),
                cs == chains_of(vs, wm),
                i <= chains@.len(),
                chains_replay(*flushed, table@, vs, wm, cs.take(i as int)) == Ok::<
                    Seq<TaskView>,
                    EngineError,
                >(task_views(tasks@)),
            decreases chains@.len() - i,
        {
            proof {
                assert(cs.take(i + 1).drop_last() =~= cs.take(i as int));
                assert(cs.take(i + 1).last() == chains@[i as int]@);
            }
            match find_chain_base(rows, &chains[i].key, wm, flushed) {
                Err(e) => {
                    proof {
                        lemma_replay_fails(*flushed, table@, vs, wm, cs, i + 1);
                    }
                    return Err(e);
                },
                Ok(base) => {
                    let ghost before = task_views(tasks@);
                    let mut more = chain_tasks(table, &chains[i], &base);
                    let ghost fresh = task_views(more@);
                    proof {
                        assert(fresh =~= chain_replay(
                            table@,
                            chains@[i as int]@,
                            op_view(base),
                        ));
                    }
                    tasks.append(&mut more);
                    proof {
                        assert(task_views(tasks@) =~= before + fresh);
                    }
                },
            }
            i = i + 1;
        }
        proof {
            assert(cs.take(cs.len() as int) =~= cs);
        }
        Ok(Some((tasks, after)))
    }
}

} // verus!
