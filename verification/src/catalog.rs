//! The catalog: what tables, indexes, users and roles exist, and the version
//! stamp of the last change to each.

use vstd::prelude::*;

use crate::hlc::hlc_lt;
use crate::hlc::Hlc;
use crate::projection::NameSet;
use crate::sorted_map::ascending;
use crate::sorted_map::entry_map;
use crate::sorted_map::holds_key;
use crate::sorted_map::lemma_entry_at;
use crate::sorted_map::place_of;
use crate::sorted_map::SortedMap;
use crate::text::cat;
use crate::text::str_eq;
use crate::text::views;

verus! {

/// Where a table's rows were placed before an unfinished placement change.
pub struct PrevPlacement {
    pub replication: Option<u32>,
    pub pinned_nodes: Vec<String>,
}

/// A table.
pub struct TableDef {
    pub primary_key: Vec<String>,
    pub ttl_ms: Option<i64>,
    pub memory: bool,
    pub replication: Option<u32>,
    pub pinned_nodes: Vec<String>,
    pub witness: bool,
    pub prev_placement: Option<PrevPlacement>,
}

/// A placement: the replication override and the pinned nodes.
pub struct PlacementView {
    pub replication: Option<u32>,
    pub pinned_nodes: Seq<Seq<char>>,
}

pub struct TableView {
    pub primary_key: Seq<Seq<char>>,
    pub ttl_ms: Option<i64>,
    pub memory: bool,
    pub replication: Option<u32>,
    pub pinned_nodes: Seq<Seq<char>>,
    pub witness: bool,
    pub prev_placement: Option<PlacementView>,
}

impl View for PrevPlacement {
    type V = PlacementView;

    open spec fn view(&self) -> PlacementView {
        PlacementView { replication: self.replication, pinned_nodes: views(self.pinned_nodes@) }
    }
}

impl View for TableDef {
    type V = TableView;

    open spec fn view(&self) -> TableView {
        TableView {
            primary_key: views(self.primary_key@),
            ttl_ms: self.ttl_ms,
            memory: self.memory,
            replication: self.replication,
            pinned_nodes: views(self.pinned_nodes@),
            witness: self.witness,
            prev_placement: match self.prev_placement {
                Some(p) => Some(p@),
                None => None,
            },
        }
    }
}

/// A rollup registered on its source table.
pub struct RollupDef {
    pub name: String,
    pub bucket_ms: i64,
}

pub struct RollupView {
    pub name: Seq<char>,
    pub bucket_ms: i64,
}

impl View for RollupDef {
    type V = RollupView;

    open spec fn view(&self) -> RollupView {
        RollupView { name: self.name@, bucket_ms: self.bucket_ms }
    }
}

/// A time-series table.
pub struct TsTableDef {
    pub series_key: Vec<String>,
    pub retention_ms: Option<i64>,
    pub ooo_window_ms: i64,
    pub rollups: Vec<RollupDef>,
    pub rollup_of: Option<String>,
}

pub struct TsTableView {
    pub series_key: Seq<Seq<char>>,
    pub retention_ms: Option<i64>,
    pub ooo_window_ms: i64,
    pub rollups: Seq<RollupView>,
    pub rollup_of: Option<Seq<char>>,
}

/// A list of rollups by what each holds.
pub open spec fn rollup_views(rs: Seq<RollupDef>) -> Seq<RollupView> {
    rs.map_values(|r: RollupDef| r@)
}

/// An optional string by its characters.
pub open spec fn opt_view(s: Option<String>) -> Option<Seq<char>> {
    match s {
        Some(x) => Some(x@),
        None => None,
    }
}

impl View for TsTableDef {
    type V = TsTableView;

    open spec fn view(&self) -> TsTableView {
        TsTableView {
            series_key: views(self.series_key@),
            retention_ms: self.retention_ms,
            ooo_window_ms: self.ooo_window_ms,
            rollups: rollup_views(self.rollups@),
            rollup_of: opt_view(self.rollup_of),
        }
    }
}

/// A secondary index; a global one keeps its entries in a table of their own.
pub struct IndexDef {
    pub table: String,
    pub paths: Vec<String>,
    pub building: bool,
    pub global: bool,
}

pub struct IndexView {
    pub table: Seq<char>,
    pub paths: Seq<Seq<char>>,
    pub building: bool,
    pub global: bool,
}

impl View for IndexDef {
    type V = IndexView;

    open spec fn view(&self) -> IndexView {
        IndexView {
            table: self.table@,
            paths: views(self.paths@),
            building: self.building,
            global: self.global,
        }
    }
}

/// A vector index; an `embed` one is filled from text by an inference provider.
pub struct VectorIndexDef {
    pub table: String,
    pub path: String,
    pub metric: String,
    pub dim: usize,
    pub ef_search: Option<usize>,
    pub embed: bool,
    pub quantized: bool,
}

pub struct VectorIndexView {
    pub table: Seq<char>,
    pub path: Seq<char>,
    pub metric: Seq<char>,
    pub dim: usize,
    pub ef_search: Option<usize>,
    pub embed: bool,
    pub quantized: bool,
}

impl View for VectorIndexDef {
    type V = VectorIndexView;

    open spec fn view(&self) -> VectorIndexView {
        VectorIndexView {
            table: self.table@,
            path: self.path@,
            metric: self.metric@,
            dim: self.dim,
            ef_search: self.ef_search,
            embed: self.embed,
            quantized: self.quantized,
        }
    }
}

/// A full-text search index with its declared options.
pub struct SearchIndexDef {
    pub table: String,
    pub paths: Vec<String>,
    pub options: Vec<(String, String)>,
}

pub struct SearchIndexView {
    pub table: Seq<char>,
    pub paths: Seq<Seq<char>>,
    pub options: Seq<(Seq<char>, Seq<char>)>,
}

/// Options by the characters of their keys and values.
pub open spec fn option_views(os: Seq<(String, String)>) -> Seq<(Seq<char>, Seq<char>)> {
    os.map_values(|o: (String, String)| (o.0@, o.1@))
}

impl View for SearchIndexDef {
    type V = SearchIndexView;

    open spec fn view(&self) -> SearchIndexView {
        SearchIndexView {
            table: self.table@,
            paths: views(self.paths@),
            options: option_views(self.options@),
        }
    }
}

/// A spatial index over one point column.
pub struct GeoIndexDef {
    pub table: String,
    pub path: String,
    pub building: bool,
}

pub struct GeoIndexView {
    pub table: Seq<char>,
    pub path: Seq<char>,
    pub building: bool,
}

impl View for GeoIndexDef {
    type V = GeoIndexView;

    open spec fn view(&self) -> GeoIndexView {
        GeoIndexView { table: self.table@, path: self.path@, building: self.building }
    }
}

/// How a user proves who they are.
#[derive(Clone, Copy, Debug, PartialEq, Eq, Structural)]
pub enum UserAuthKind {
    Scram,
    Gssapi,
}

pub struct UserDef {
    pub credential: String,
    pub auth_kind: UserAuthKind,
}

pub struct UserView {
    pub credential: Seq<char>,
    pub auth_kind: UserAuthKind,
}

impl View for UserDef {
    type V = UserView;

    open spec fn view(&self) -> UserView {
        UserView { credential: self.credential@, auth_kind: self.auth_kind }
    }
}

/// A role: its privileges, each on an object or everywhere, and its parents.
pub struct AuthRoleDef {
    pub grants: Vec<(String, Option<String>)>,
    pub inherits: Vec<String>,
}

pub struct RoleView {
    pub grants: Seq<(Seq<char>, Option<Seq<char>>)>,
    pub inherits: Seq<Seq<char>>,
}

/// Grants by the characters of the privilege and of the object.
pub open spec fn grant_views(gs: Seq<(String, Option<String>)>) -> Seq<
    (Seq<char>, Option<Seq<char>>),
> {
    gs.map_values(|g: (String, Option<String>)| (g.0@, opt_view(g.1)))
}

impl View for AuthRoleDef {
    type V = RoleView;

    open spec fn view(&self) -> RoleView {
        RoleView { grants: grant_views(self.grants@), inherits: views(self.inherits@) }
    }
}

/// The stamp of the last change to a schema object, and whether it was a drop.
#[derive(Clone, Copy, Debug, PartialEq, Eq, Structural)]
pub struct SchemaVersion {
    pub hlc: Hlc,
    pub dropped: bool,
}

impl View for SchemaVersion {
    type V = SchemaVersion;

    open spec fn view(&self) -> SchemaVersion {
        *self
    }
}

/// Everything the database knows of its schema. A dropped object leaves its
/// version behind as a tombstone.
pub struct Catalog {
    pub databases: NameSet,
    pub tables: SortedMap<String, TableDef>,
    pub timeseries: SortedMap<String, TsTableDef>,
    pub indexes: SortedMap<String, IndexDef>,
    pub vector_indexes: SortedMap<String, VectorIndexDef>,
    pub search_indexes: SortedMap<String, SearchIndexDef>,
    pub geo_indexes: SortedMap<String, GeoIndexDef>,
    pub users: SortedMap<String, UserDef>,
    pub auth_roles: SortedMap<String, AuthRoleDef>,
    pub schema_versions: SortedMap<String, SchemaVersion>,
}

/// A catalog as maps from names.
pub struct CatalogView {
    pub databases: Set<Seq<char>>,
    pub tables: Map<Seq<char>, TableView>,
    pub timeseries: Map<Seq<char>, TsTableView>,
    pub indexes: Map<Seq<char>, IndexView>,
    pub vector_indexes: Map<Seq<char>, VectorIndexView>,
    pub search_indexes: Map<Seq<char>, SearchIndexView>,
    pub geo_indexes: Map<Seq<char>, GeoIndexView>,
    pub users: Map<Seq<char>, UserView>,
    pub auth_roles: Map<Seq<char>, RoleView>,
    pub versions: Map<Seq<char>, SchemaVersion>,
}

/// A map of definitions by what each holds.
pub open spec fn defs<D: View>(m: SortedMap<String, D>) -> Map<Seq<char>, D::V> {
    m@.map_values(|d: D| d@)
}

impl View for Catalog {
    type V = CatalogView;

    open spec fn view(&self) -> CatalogView {
        CatalogView {
            databases: self.databases@,
            tables: defs(self.tables),
            timeseries: defs(self.timeseries),
            indexes: defs(self.indexes),
            vector_indexes: defs(self.vector_indexes),
            search_indexes: defs(self.search_indexes),
            geo_indexes: defs(self.geo_indexes),
            users: defs(self.users),
            auth_roles: defs(self.auth_roles),
            versions: defs(self.schema_versions),
        }
    }
}

impl Catalog {
    /// Every map is in key order.
    pub open spec fn wf(&self) -> bool {
        &&& self.databases.wf()
        &&& self.tables.wf()
        &&& self.timeseries.wf()
        &&& self.indexes.wf()
        &&& self.vector_indexes.wf()
        &&& self.search_indexes.wf()
        &&& self.geo_indexes.wf()
        &&& self.users.wf()
        &&& self.auth_roles.wf()
        &&& self.schema_versions.wf()
    }

    /// A catalog with nothing in it.
    pub fn new() -> (r: Catalog)
        ensures
            r.wf(),
            r@ == empty_catalog(),
    {
        let r = Catalog {
            databases: NameSet::new(),
            tables: SortedMap::new(),
            timeseries: SortedMap::new(),
            indexes: SortedMap::new(),
            vector_indexes: SortedMap::new(),
            search_indexes: SortedMap::new(),
            geo_indexes: SortedMap::new(),
            users: SortedMap::new(),
            auth_roles: SortedMap::new(),
            schema_versions: SortedMap::new(),
        };
        proof {
            assert(r@.tables =~= Map::<Seq<char>, TableView>::empty());
            assert(r@.timeseries =~= Map::<Seq<char>, TsTableView>::empty());
            assert(r@.indexes =~= Map::<Seq<char>, IndexView>::empty());
            assert(r@.vector_indexes =~= Map::<Seq<char>, VectorIndexView>::empty());
            assert(r@.search_indexes =~= Map::<Seq<char>, SearchIndexView>::empty());
            assert(r@.geo_indexes =~= Map::<Seq<char>, GeoIndexView>::empty());
            assert(r@.users =~= Map::<Seq<char>, UserView>::empty());
            assert(r@.auth_roles =~= Map::<Seq<char>, RoleView>::empty());
            assert(r@.versions =~= Map::<Seq<char>, SchemaVersion>::empty());
        }
        r
    }
}

/// A catalog with nothing in it.
pub open spec fn empty_catalog() -> CatalogView {
    CatalogView {
        databases: Set::empty(),
        tables: Map::empty(),
        timeseries: Map::empty(),
        indexes: Map::empty(),
        vector_indexes: Map::empty(),
        search_indexes: Map::empty(),
        geo_indexes: Map::empty(),
        users: Map::empty(),
        auth_roles: Map::empty(),
        versions: Map::empty(),
    }
}

/// Whether a change stamped `hlc` is newer than the recorded version of the
/// object `key`, or there is none: it takes effect under last-writer-wins.
pub open spec fn advances(versions: Map<Seq<char>, SchemaVersion>, key: Seq<char>, hlc: Hlc) -> bool {
    !versions.dom().contains(key) || hlc_lt(versions[key].hlc, hlc)
}

/// Whether a change stamped `hlc` takes effect under last-writer-wins.
pub fn schema_advances(versions: &SortedMap<String, SchemaVersion>, key: &String, hlc: Hlc) -> (r:
    bool)
    requires
        versions.wf(),
    ensures
        r == advances(defs(*versions), key@, hlc),
{
    match versions.get(key) {
        None => true,
        Some(v) => v.hlc.before(hlc),
    }
}

/// Records the version stamp of a schema object.
pub fn record_schema(
    versions: &mut SortedMap<String, SchemaVersion>,
    key: String,
    hlc: Hlc,
    dropped: bool,
)
    requires
        old(versions).wf(),
    ensures
        final(versions).wf(),
        defs(*final(versions)) == defs(*old(versions)).insert(key@, SchemaVersion { hlc, dropped }),
{
    put_def(versions, key, SchemaVersion { hlc, dropped });
}

/// Puts a definition into a map of definitions.
pub fn put_def<D: View>(m: &mut SortedMap<String, D>, name: String, def: D)
    requires
        old(m).wf(),
    ensures
        final(m).wf(),
        defs(*final(m)) == defs(*old(m)).insert(name@, def@),
{
    m.insert(name, def);
    proof {
        assert(defs(*m) =~= defs(*old(m)).insert(name@, def@));
    }
}

/// Takes a definition out of a map of definitions.
pub fn take_def<D: View>(m: &mut SortedMap<String, D>, name: &String) -> (r: Option<D>)
    requires
        old(m).wf(),
    ensures
        final(m).wf(),
        defs(*final(m)) == defs(*old(m)).remove(name@),
        r is Some <==> defs(*old(m)).dom().contains(name@),
        r matches Some(d) ==> d@ == defs(*old(m))[name@] && d == old(m)@[name@],
{
    let r = m.remove(name);
    proof {
        assert(defs(*m) =~= defs(*old(m)).remove(name@));
    }
    r
}

/// The definition of `name`.
pub fn def_of<'a, D: View>(m: &'a SortedMap<String, D>, name: &String) -> (r: Option<&'a D>)
    requires
        m.wf(),
    ensures
        r is Some <==> defs(*m).dom().contains(name@),
        r matches Some(d) ==> d@ == defs(*m)[name@] && *d == m@[name@],
{
    m.get(name)
}

/// Whether `name` is defined.
pub fn has_def<D: View>(m: &SortedMap<String, D>, name: &String) -> (r: bool)
    requires
        m.wf(),
    ensures
        r == defs(*m).dom().contains(name@),
{
    m.contains(name)
}

/// A definition of something that is on a table.
pub trait OnTable: View {
    /// The table that a definition is on.
    spec fn table_of(v: Self::V) -> Seq<char>;

    /// Whether this definition is on `table`.
    fn on_table(&self, table: &str) -> (r: bool)
        ensures
            r == (Self::table_of(self@) == table@),
    ;
}

impl OnTable for IndexDef {
    open spec fn table_of(v: IndexView) -> Seq<char> {
        v.table
    }

    fn on_table(&self, table: &str) -> (r: bool) {
        str_eq(self.table.as_str(), table)
    }
}

impl OnTable for VectorIndexDef {
    open spec fn table_of(v: VectorIndexView) -> Seq<char> {
        v.table
    }

    fn on_table(&self, table: &str) -> (r: bool) {
        str_eq(self.table.as_str(), table)
    }
}

impl OnTable for SearchIndexDef {
    open spec fn table_of(v: SearchIndexView) -> Seq<char> {
        v.table
    }

    fn on_table(&self, table: &str) -> (r: bool) {
        str_eq(self.table.as_str(), table)
    }
}

impl OnTable for GeoIndexDef {
    open spec fn table_of(v: GeoIndexView) -> Seq<char> {
        v.table
    }

    fn on_table(&self, table: &str) -> (r: bool) {
        str_eq(self.table.as_str(), table)
    }
}

/// Whether `name` is defined and on `table`.
pub open spec fn defined_on<D: OnTable>(
    m: Map<Seq<char>, D::V>,
    table: Seq<char>,
    name: Seq<char>,
) -> bool {
    m.dom().contains(name) && D::table_of(m[name]) == table
}

/// The definitions that are not on `table`.
pub open spec fn not_on<D: OnTable>(m: Map<Seq<char>, D::V>, table: Seq<char>) -> Map<
    Seq<char>,
    D::V,
> {
    Map::new(
        |n: Seq<char>| m.dom().contains(n) && D::table_of(m[n]) != table,
        |n: Seq<char>| m[n],
    )
}

/// Whether `name` is among a list of named definitions.
pub open spec fn named<D>(ds: Seq<(String, D)>, name: Seq<char>) -> bool {
    exists|i: int| 0 <= i < ds.len() && (#[trigger] ds[i]).0@ == name
}

/// Takes every definition on `table` out of a map, in name order.
pub fn take_on<D: OnTable>(m: &mut SortedMap<String, D>, table: &str) -> (r: Vec<(String, D)>)
    requires
        old(m).wf(),
    ensures
        final(m).wf(),
        defs(*final(m)) == not_on::<D>(defs(*old(m)), table@),
        forall|n: Seq<char>| #[trigger]
            named(r@, n) <==> defined_on::<D>(defs(*old(m)), table@, n),
        forall|i: int|
            0 <= i < r@.len() ==> defs(*old(m)).dom().contains((#[trigger] r@[i]).0@) && r@[i].1@
                == defs(*old(m))[r@[i].0@],
{
    let mut out: Vec<(String, D)> = Vec::new();
    let mut i: usize = 0;
    let ghost start = defs(*m);
    proof {
        assert(m.entries@.skip(0) =~= m.entries@);
    }
    while i < m.entries.len()
        invariant
            m.wf(),
            i <= m.entries@.len(),
            forall|k: int|
                0 <= k < i ==> D::table_of((#[trigger] m.entries@[k]).1@) != table@,
            forall|n: Seq<char>| #[trigger]
                start.dom().contains(n) <==> defs(*m).dom().contains(n) || named(out@, n),
            forall|n: Seq<char>| #[trigger]
                defs(*m).dom().contains(n) ==> defs(*m)[n] == start[n] && !named(out@, n),
            forall|k: int|
                0 <= k < out@.len() ==> start.dom().contains((#[trigger] out@[k]).0@) && out@[k].1@
                    == start[out@[k].0@] && D::table_of(out@[k].1@) == table@,
        decreases m.entries@.len() - i,
    {
        proof {
            lemma_entry_at(m.entries@, i as int);
        }
        if m.entries[i].1.on_table(table) {
            let ghost e = m.entries@;
            let ghost before = *m;
            let ghost prev = out@;
            let (name, def) = m.entries.remove(i);
            proof {
                let f = m.entries@;
                assert(f =~= e.remove(i as int));
                lemma_entries_remove(e, i as int);
                assert(defs(*m) =~= defs(before).remove(name@));
                assert(defs(before)[name@] == def@);
            }
            out.push((name, def));
            proof {
                assert forall|n: Seq<char>| #[trigger]
                    named(out@, n) <==> named(prev, n) || n == name@ by {
                    if named(out@, n) {
                        let p = choose|p: int| 0 <= p < out@.len() && (#[trigger] out@[p]).0@ == n;
                        if p < prev.len() {
                            assert(prev[p].0@ == n);
                        }
                    }
                    if named(prev, n) {
                        let p = choose|p: int| 0 <= p < prev.len() && (#[trigger] prev[p]).0@ == n;
                        assert(out@[p].0@ == n);
                    }
                    if n == name@ {
                        assert(out@[prev.len() as int].0@ == n);
                    }
                }
                assert forall|k: int| 0 <= k < out@.len() implies start.dom().contains(
                    (#[trigger] out@[k]).0@,
                ) && out@[k].1@ == start[out@[k].0@] && D::table_of(out@[k].1@) == table@ by {
                    if k < prev.len() {
                        assert(out@[k] == prev[k]);
                    }
                }
            }
        } else {
            i = i + 1;
        }
    }
    proof {
        assert forall|n: Seq<char>| defs(*m).dom().contains(n) implies D::table_of(
            #[trigger] defs(*m)[n],
        ) != table@ by {
            let p = place_of(m.entries@, n);
            lemma_entry_at(m.entries@, p);
            assert(D::table_of(m.entries@[p].1@) != table@);
        }
        assert forall|n: Seq<char>| named(out@, n) implies D::table_of(#[trigger] start[n])
            == table@ by {
            let p = choose|p: int| 0 <= p < out@.len() && (#[trigger] out@[p]).0@ == n;
            assert(D::table_of(out@[p].1@) == table@);
        }
        assert forall|n: Seq<char>| #[trigger]
            named(out@, n) <==> defined_on::<D>(start, table@, n) by {
            if defined_on::<D>(start, table@, n) {
                if defs(*m).dom().contains(n) {
                    assert(D::table_of(defs(*m)[n]) != table@);
                }
            }
            if named(out@, n) {
                assert(start.dom().contains(n));
                assert(D::table_of(start[n]) == table@);
            }
        }
        assert forall|n: Seq<char>| #[trigger]
            defs(*m).dom().contains(n) <==> not_on::<D>(start, table@).dom().contains(n) by {
            if start.dom().contains(n) && D::table_of(start[n]) != table@ {
                if named(out@, n) {
                    assert(D::table_of(start[n]) == table@);
                }
            }
            if defs(*m).dom().contains(n) {
                assert(D::table_of(defs(*m)[n]) != table@);
            }
        }
        assert(defs(*m) =~= not_on::<D>(start, table@));
    }
    out
}

/// Removing the `i`-th entry removes its key from the map.
proof fn lemma_entries_remove<D>(e: Seq<(String, D)>, i: int)
    requires
        ascending(e),
        0 <= i < e.len(),
    ensures
        ascending(e.remove(i)),
        entry_map(e.remove(i)) == entry_map(e).remove(e[i].0@),
{
    let f = e.remove(i);
    let m = e[i].0@;
    assert forall|a: int, b: int| 0 <= a < b < f.len() implies crate::text::seq_lt(
        (#[trigger] f[a]).0@,
        (#[trigger] f[b]).0@,
    ) by {
        let a0 = if a < i {
            a
        } else {
            a + 1
        };
        let b0 = if b < i {
            b
        } else {
            b + 1
        };
        assert(<String as crate::sorted_map::SortKey>::below(e[a0].0@, e[b0].0@)) by {
            assert(e[a0].0@ == e[a0].0@ && e[b0].0@ == e[b0].0@);
        }
    }
    assert(ascending(f));
    lemma_entry_at(e, i);
    assert forall|x: Seq<char>| holds_key(f, x) <==> holds_key(e, x) && x != m by {
        if holds_key(f, x) {
            let p = place_of(f, x);
            let q = if p < i {
                p
            } else {
                p + 1
            };
            lemma_entry_at(e, q);
        }
        if holds_key(e, x) && x != m {
            let p = place_of(e, x);
            lemma_entry_at(e, p);
            if p < i {
                lemma_entry_at(f, p);
            } else {
                lemma_entry_at(f, p - 1);
            }
        }
    }
    assert forall|x: Seq<char>| holds_key(f, x) implies #[trigger] entry_map(f)[x] == entry_map(
        e,
    ).remove(m)[x] by {
        let p = place_of(f, x);
        lemma_entry_at(f, p);
        if p < i {
            lemma_entry_at(e, p);
        } else {
            lemma_entry_at(e, p + 1);
        }
    }
    assert(entry_map(f) =~= entry_map(e).remove(m));
}

/// The versions with a tombstone at `hlc` for every key that `hit` picks.
pub open spec fn tombstoned(
    versions: Map<Seq<char>, SchemaVersion>,
    hit: spec_fn(Seq<char>) -> bool,
    hlc: Hlc,
) -> Map<Seq<char>, SchemaVersion> {
    Map::new(
        |k: Seq<char>| versions.dom().contains(k) || hit(k),
        |k: Seq<char>|
            if hit(k) {
                SchemaVersion { hlc, dropped: true }
            } else {
                versions[k]
            },
    )
}

/// Whether `k` is the schema key of one of the named definitions.
pub open spec fn key_of_named<D>(prefix: Seq<char>, ds: Seq<(String, D)>, k: Seq<char>) -> bool {
    exists|i: int| 0 <= i < ds.len() && k == prefix + (#[trigger] ds[i]).0@
}

/// Records a tombstone for every named definition, under the key prefix of
/// its kind.
pub fn tombstone_all<D>(
    versions: &mut SortedMap<String, SchemaVersion>,
    prefix: &str,
    ds: &Vec<(String, D)>,
    hlc: Hlc,
)
    requires
        old(versions).wf(),
    ensures
        final(versions).wf(),
        defs(*final(versions)) == tombstoned(
            defs(*old(versions)),
            |k: Seq<char>| key_of_named(prefix@, ds@, k),
            hlc,
        ),
{
    let ghost start = defs(*versions);
    let mut i: usize = 0;
    proof {
        assert(start =~= tombstoned(
            start,
            |k: Seq<char>| key_of_named(prefix@, ds@.take(0), k),
            hlc,
        ));
    }
    while i < ds.len()
        invariant
            i <= ds@.len(),
            versions.wf(),
            defs(*versions) == tombstoned(
                start,
                |k: Seq<char>| key_of_named(prefix@, ds@.take(i as int), k),
                hlc,
            ),
        decreases ds@.len() - i,
    {
        let ghost before = defs(*versions);
        record_schema(versions, cat(prefix, ds[i].0.as_str()), hlc, true);
        proof {
            let key = prefix@ + ds@[i as int].0@;
            let a = ds@.take(i as int);
            let b = ds@.take(i + 1);
            assert forall|k: Seq<char>|
                key_of_named(prefix@, b, k) <==> key_of_named(prefix@, a, k) || k == key by {
                if key_of_named(prefix@, b, k) {
                    let p = choose|p: int| 0 <= p < b.len() && k == prefix@ + (#[trigger] b[p]).0@;
                    if p < i {
                        assert(a[p] == b[p]);
                    }
                }
                if key_of_named(prefix@, a, k) {
                    let p = choose|p: int| 0 <= p < a.len() && k == prefix@ + (#[trigger] a[p]).0@;
                    assert(b[p] == a[p]);
                }
                if k == key {
                    assert(b[i as int] == ds@[i as int]);
                }
            }
            assert(defs(*versions) =~= tombstoned(
                start,
                |k: Seq<char>| key_of_named(prefix@, b, k),
                hlc,
            ));
        }
        i = i + 1;
    }
    proof {
        assert(ds@.take(ds@.len() as int) =~= ds@);
    }
}

} // verus!
