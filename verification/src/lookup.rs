//! What other layers ask of the catalog: names, keys, placements, and which
//! index serves what.

use vstd::prelude::*;

use crate::alter::lists_on;
use crate::alter::names_on;
use crate::catalog::def_of;
use crate::catalog::defs;
use crate::catalog::has_def;
use crate::catalog::CatalogView;
use crate::catalog::GeoIndexDef;
use crate::catalog::IndexDef;
use crate::catalog::PlacementView;
use crate::catalog::SearchIndexDef;
use crate::catalog::TableDef;
use crate::catalog::TableView;
use crate::catalog::TsTableDef;
use crate::catalog::TsTableView;
use crate::catalog::VectorIndexDef;
use crate::database::copy_strings;
use crate::database::Database;
use crate::ddl_database::names_ascend;
use crate::error::EngineError;
use crate::error::ErrorView;
use crate::hlc::hlc_min;
use crate::hlc::Hlc;
use crate::namespace::display_name;
use crate::namespace::displayed;
use crate::namespace::gidx_index;
use crate::namespace::gidx_index_name;
use crate::namespace::is_gidx_table;
use crate::namespace::names_gidx_table;
use crate::namespace::qualified;
use crate::namespace::qualify;
use crate::sorted_map::lemma_entry_at;
use crate::sorted_map::place_of;
use crate::sorted_map::SortKey;
use crate::sorted_map::SortedMap;
use crate::text::cat;
use crate::text::seq_lt;
use crate::text::str_eq;
use crate::text::views;

verus! {

/// Whether `names` lists, in order, exactly the definitions that `p` picks.
pub open spec fn lists_picked<V>(
    names: Seq<Seq<char>>,
    m: Map<Seq<char>, V>,
    p: spec_fn(V) -> bool,
) -> bool {
    names_ascend(names) && forall|n: Seq<char>| #[trigger]
        names.contains(n) <==> m.dom().contains(n) && p(m[n])
}

/// A test on definitions.
trait Picks<D: View> {
    spec fn picks(&self, v: D::V) -> bool;

    fn test(&self, d: &D) -> (r: bool)
        ensures
            r == self.picks(d@),
    ;
}

struct All {}

impl<D: View> Picks<D> for All {
    spec fn picks(&self, v: D::V) -> bool {
        true
    }

    fn test(&self, d: &D) -> (r: bool) {
        true
    }
}

struct Persistent {}

impl Picks<TableDef> for Persistent {
    spec fn picks(&self, v: TableView) -> bool {
        !v.memory
    }

    fn test(&self, d: &TableDef) -> (r: bool) {
        !d.memory
    }
}

struct InTransition {}

impl Picks<TableDef> for InTransition {
    spec fn picks(&self, v: TableView) -> bool {
        v.prev_placement is Some
    }

    fn test(&self, d: &TableDef) -> (r: bool) {
        d.prev_placement.is_some()
    }
}

/// Whether a table is pinned to `node`, now or until its open placement change
/// is finished.
pub open spec fn pins_to(v: TableView, node: Seq<char>) -> bool {
    v.pinned_nodes.contains(node) || (v.prev_placement matches Some(p) && p.pinned_nodes.contains(
        node,
    ))
}

struct Pinning<'a> {
    node: &'a str,
}

impl<'a> Picks<TableDef> for Pinning<'a> {
    spec fn picks(&self, v: TableView) -> bool {
        pins_to(v, self.node@)
    }

    fn test(&self, d: &TableDef) -> (r: bool) {
        if has_string(&d.pinned_nodes, self.node) {
            return true;
        }
        match &d.prev_placement {
            Some(p) => has_string(&p.pinned_nodes, self.node),
            None => false,
        }
    }
}

fn has_string(list: &Vec<String>, s: &str) -> (r: bool)
    ensures
        r == views(list@).contains(s@),
{
    let mut i: usize = 0;
    while i < list.len()
        invariant
            i <= list@.len(),
            forall|k: int| 0 <= k < i ==> (#[trigger] list@[k])@ != s@,
        decreases list@.len() - i,
    {
        if str_eq(list[i].as_str(), s) {
            proof {
                assert(views(list@)[i as int] == s@);
            }
            return true;
        }
        i = i + 1;
    }
    proof {
        if views(list@).contains(s@) {
            let k = choose|k: int| 0 <= k < views(list@).len() && views(list@)[k] == s@;
            assert(list@[k]@ == s@);
        }
    }
    false
}

fn pick_names<D: View, P: Picks<D>>(m: &SortedMap<String, D>, p: &P) -> (r: Vec<String>)
    requires
        m.wf(),
    ensures
        lists_picked(views(r@), defs(*m), |v: D::V| p.picks(v)),
{
    let mut out: Vec<String> = Vec::new();
    let ghost mut from: Seq<int> = Seq::empty();
    let mut i: usize = 0;
    let ghost es = m.entries@;
    while i < m.len()
        invariant
            m.wf(),
            es == m.entries@,
            i <= es.len(),
            from.len() == out@.len(),
            forall|k: int| 0 <= k < from.len() ==> 0 <= #[trigger] from[k] < i,
            forall|k: int|
                0 <= k < from.len() ==> (#[trigger] out@[k])@ == es[from[k]].0@ && p.picks(
                    es[from[k]].1@,
                ),
            forall|a: int, b: int|
                0 <= a < b < from.len() ==> #[trigger] from[a] < #[trigger] from[b],
            forall|j: int| 0 <= j < i && p.picks((#[trigger] es[j]).1@) ==> from.contains(j),
        decreases es.len() - i,
    {
        let ghost prev = from;
        if p.test(m.value_at(i)) {
            out.push(m.key_at(i).clone());
            proof {
                from = from.push(i as int);
                assert(from[prev.len() as int] == i);
            }
        }
        proof {
            assert forall|j: int| 0 <= j < i + 1 && p.picks((#[trigger] es[j]).1@) implies from.contains(
                j,
            ) by {
                if j < i {
                    assert(prev.contains(j));
                    let k = choose|k: int| 0 <= k < prev.len() && prev[k] == j;
                    assert(from[k] == j);
                } else {
                    assert(from[prev.len() as int] == j);
                }
            }
        }
        i = i + 1;
    }
    proof {
        let names = views(out@);
        assert forall|a: int, b: int| 0 <= a < b < names.len() implies seq_lt(
            #[trigger] names[a],
            #[trigger] names[b],
        ) by {
            assert(out@[a]@ == es[from[a]].0@);
            assert(out@[b]@ == es[from[b]].0@);
            assert(from[a] < from[b]);
            assert(<String as SortKey>::below(es[from[a]].0.model(), es[from[b]].0.model()));
        }
        assert forall|n: Seq<char>| #[trigger]
            names.contains(n) <==> defs(*m).dom().contains(n) && p.picks(defs(*m)[n]) by {
            if names.contains(n) {
                let k = choose|k: int| 0 <= k < names.len() && names[k] == n;
                assert(out@[k]@ == es[from[k]].0@);
                lemma_entry_at(es, from[k]);
            }
            if defs(*m).dom().contains(n) && p.picks(defs(*m)[n]) {
                let q = place_of(es, n);
                lemma_entry_at(es, q);
                assert(es[q].0@ == n);
                assert(from.contains(q));
                let k = choose|k: int| 0 <= k < from.len() && from[k] == q;
                assert(out@[k]@ == n);
                assert(names[k] == n);
            }
        }
    }
    out
}

/// A table's key columns, or why there are none.
pub open spec fn primary_key_of(v: CatalogView, table: Seq<char>) -> Result<
    Seq<Seq<char>>,
    ErrorView,
> {
    if v.tables.dom().contains(table) {
        Ok(v.tables[table].primary_key)
    } else {
        Err(ErrorView::TableNotFound(table))
    }
}

/// A placement, and the one before it while a change is open.
pub struct Placement {
    pub replication: Option<u32>,
    pub pinned_nodes: Vec<String>,
}

impl View for Placement {
    type V = PlacementView;

    open spec fn view(&self) -> PlacementView {
        PlacementView { replication: self.replication, pinned_nodes: views(self.pinned_nodes@) }
    }
}

/// The placement of a table that says nothing of its own.
pub open spec fn default_placement() -> (PlacementView, Option<PlacementView>) {
    (PlacementView { replication: None, pinned_nodes: Seq::empty() }, None)
}

/// The table that decides where a table's rows go: the base table for the
/// entries of a global index.
pub open spec fn placing_table(v: CatalogView, table: Seq<char>) -> Option<Seq<char>> {
    if !names_gidx_table(table) {
        Some(table)
    } else {
        let index = gidx_index_name(table);
        if v.indexes.dom().contains(index) && v.indexes[index].global {
            Some(v.indexes[index].table)
        } else {
            None
        }
    }
}

/// Where a table's rows go, and where they went before an open change.
pub open spec fn placement_of(v: CatalogView, table: Seq<char>) -> (
    PlacementView,
    Option<PlacementView>,
) {
    match placing_table(v, table) {
        Some(t) => if v.tables.dom().contains(t) {
            let d = v.tables[t];
            (
                PlacementView { replication: d.replication, pinned_nodes: d.pinned_nodes },
                d.prev_placement,
            )
        } else {
            default_placement()
        },
        None => default_placement(),
    }
}

/// An optional placement by what it holds.
pub open spec fn opt_placement(p: Option<Placement>) -> Option<PlacementView> {
    match p {
        Some(x) => Some(x@),
        None => None,
    }
}

fn no_placement() -> (r: (Placement, Option<Placement>))
    ensures
        (r.0@, opt_placement(r.1)) == default_placement(),
{
    let p = Placement { replication: None, pinned_nodes: Vec::new() };
    proof {
        assert(p@.pinned_nodes =~= Seq::<Seq<char>>::empty());
    }
    (p, None)
}

/// The table that an index of any kind is on.
pub open spec fn owner_of(v: CatalogView, index: Seq<char>) -> Option<Seq<char>> {
    if v.indexes.dom().contains(index) {
        Some(v.indexes[index].table)
    } else if v.vector_indexes.dom().contains(index) {
        Some(v.vector_indexes[index].table)
    } else if v.search_indexes.dom().contains(index) {
        Some(v.search_indexes[index].table)
    } else if v.geo_indexes.dom().contains(index) {
        Some(v.geo_indexes[index].table)
    } else {
        None
    }
}

impl Database {
    /// Whether `table` exists.
    pub fn has_table(&self, table: &str) -> (r: bool)
        requires
            self.wf(),
        ensures
            r == self@.cat.tables.dom().contains(table@),
    {
        has_def(&self.catalog.tables, &table.to_owned())
    }

    /// The names of all tables.
    pub fn table_names(&self) -> (r: Vec<String>)
        requires
            self.wf(),
        ensures
            lists_picked(views(r@), self@.cat.tables, |t: TableView| true),
    {
        let r = pick_names(&self.catalog.tables, &All {  });
        proof {
            let p = All {  };
            assert((|v: TableView| <All as Picks<TableDef>>::picks(&p, v)) =~= (|t: TableView| true));
        }
        r
    }

    /// The names of the tables whose rows are worth moving between nodes: all
    /// but the memory tables.
    pub fn persistent_table_names(&self) -> (r: Vec<String>)
        requires
            self.wf(),
        ensures
            lists_picked(views(r@), self@.cat.tables, |t: TableView| !t.memory),
    {
        let r = pick_names(&self.catalog.tables, &Persistent {  });
        proof {
            let p = Persistent {  };
            assert((|v: TableView| p.picks(v)) =~= (|t: TableView| !t.memory));
        }
        r
    }

    /// Whether `table` is a memory table; nothing where it does not exist.
    pub fn table_is_memory(&self, table: &str) -> (r: Option<bool>)
        requires
            self.wf(),
        ensures
            r == (if self@.cat.tables.dom().contains(table@) {
                Some(self@.cat.tables[table@].memory)
            } else {
                None
            }),
    {
        match def_of(&self.catalog.tables, &table.to_owned()) {
            Some(d) => Some(d.memory),
            None => None,
        }
    }

    /// The key columns of `table`.
    pub fn table_primary_key(&self, table: &str) -> (r: Result<Vec<String>, EngineError>)
        requires
            self.wf(),
        ensures
            match r {
                Ok(pk) => primary_key_of(self@.cat, table@) == Ok::<Seq<Seq<char>>, ErrorView>(
                    views(pk@),
                ),
                Err(e) => primary_key_of(self@.cat, table@) == Err::<Seq<Seq<char>>, ErrorView>(e@),
            },
    {
        match def_of(&self.catalog.tables, &table.to_owned()) {
            Some(d) => Ok(copy_strings(&d.primary_key)),
            None => Err(EngineError::TableNotFound(table.to_owned())),
        }
    }

    /// How long the rows of `table` live, where that is limited.
    pub fn table_ttl_ms(&self, table: &str) -> (r: Option<u64>)
        requires
            self.wf(),
        ensures
            r == (if self@.cat.tables.dom().contains(table@) {
                match self@.cat.tables[table@].ttl_ms {
                    Some(ms) => Some(ms as u64),
                    None => None,
                }
            } else {
                None
            }),
    {
        match def_of(&self.catalog.tables, &table.to_owned()) {
            Some(d) => match d.ttl_ms {
                Some(ms) => Some(ms as u64),
                None => None,
            },
            None => None,
        }
    }

    /// The names of all time-series tables.
    pub fn ts_table_names(&self) -> (r: Vec<String>)
        requires
            self.wf(),
        ensures
            lists_picked(views(r@), self@.cat.timeseries, |t: TsTableView| true),
    {
        let r = pick_names(&self.catalog.timeseries, &All {  });
        proof {
            let p = All {  };
            assert((|v: TsTableView| <All as Picks<TsTableDef>>::picks(&p, v)) =~= (|
                t: TsTableView,
            | true));
        }
        r
    }

    /// Whether there is any time-series table.
    pub fn has_timeseries_tables(&self) -> (r: bool)
        requires
            self.wf(),
        ensures
            r == (exists|n: Seq<char>| self@.cat.timeseries.dom().contains(n)),
    {
        let ghost es = self.catalog.timeseries.entries@;
        let n: usize = self.catalog.timeseries.len();
        proof {
            if n > 0 {
                lemma_entry_at(es, 0);
                assert(self@.cat.timeseries.dom().contains(es[0].0@));
            } else {
                assert forall|k: Seq<char>| !self@.cat.timeseries.dom().contains(k) by {
                    if self@.cat.timeseries.dom().contains(k) {
                        lemma_entry_at(es, place_of(es, k));
                    }
                }
            }
        }
        n > 0
    }

    /// The definition of the time-series table `table`.
    pub fn ts_table_def(&self, table: &str) -> (r: Option<&TsTableDef>)
        requires
            self.wf(),
        ensures
            r is Some <==> self@.cat.timeseries.dom().contains(table@),
            r matches Some(d) ==> d@ == self@.cat.timeseries[table@],
    {
        def_of(&self.catalog.timeseries, &table.to_owned())
    }

    /// The series-key columns of the time-series table `table`.
    pub fn ts_series_key(&self, table: &str) -> (r: Option<Vec<String>>)
        requires
            self.wf(),
        ensures
            r is Some <==> self@.cat.timeseries.dom().contains(table@),
            r matches Some(k) ==> views(k@) == self@.cat.timeseries[table@].series_key,
    {
        match def_of(&self.catalog.timeseries, &table.to_owned()) {
            Some(d) => Some(copy_strings(&d.series_key)),
            None => None,
        }
    }

    /// The base table and the paths of a global index.
    pub fn gidx_def(&self, index: &str) -> (r: Option<(String, Vec<String>)>)
        requires
            self.wf(),
        ensures
            r is Some <==> self@.cat.indexes.dom().contains(index@) && self@.cat.indexes[index@].global,
            r matches Some(d) ==> d.0@ == self@.cat.indexes[index@].table && views(d.1@)
                == self@.cat.indexes[index@].paths,
    {
        match def_of(&self.catalog.indexes, &index.to_owned()) {
            Some(d) => if d.global {
                Some((d.table.clone(), copy_strings(&d.paths)))
            } else {
                None
            },
            None => None,
        }
    }

    /// Where the rows of `table` go, and where they went before an open change.
    /// The entries of a global index go where its base table's rows go; a table
    /// that is not known goes where the cluster puts things by default.
    pub fn table_placement(&self, table: &str) -> (r: (Placement, Option<Placement>))
        requires
            self.wf(),
        ensures
            (r.0@, opt_placement(r.1)) == placement_of(self@.cat, table@),
    {
        let name = if is_gidx_table(table) {
            let index = gidx_index(table);
            match def_of(&self.catalog.indexes, &index) {
                Some(d) => {
                    if !d.global {
                        return no_placement();
                    }
                    d.table.clone()
                },
                None => {
                    return no_placement();
                },
            }
        } else {
            table.to_owned()
        };
        match def_of(&self.catalog.tables, &name) {
            Some(d) => {
                let p = Placement {
                    replication: d.replication,
                    pinned_nodes: copy_strings(&d.pinned_nodes),
                };
                let prev = match &d.prev_placement {
                    Some(q) => Some(
                        Placement {
                            replication: q.replication,
                            pinned_nodes: copy_strings(&q.pinned_nodes),
                        },
                    ),
                    None => None,
                };
                (p, prev)
            },
            None => no_placement(),
        }
    }

    /// The tables with an open placement change.
    pub fn tables_in_placement_transition(&self) -> (r: Vec<String>)
        requires
            self.wf(),
        ensures
            lists_picked(
                views(r@),
                self@.cat.tables,
                |t: TableView| t.prev_placement is Some,
            ),
    {
        let r = pick_names(&self.catalog.tables, &InTransition {  });
        proof {
            let p = InTransition {  };
            assert((|v: TableView| p.picks(v)) =~= (|t: TableView| t.prev_placement is Some));
        }
        r
    }

    /// The tables that are pinned to `node`: it cannot leave while there are
    /// any, for it may hold their only copies.
    pub fn tables_pinning(&self, node: &str) -> (r: Vec<String>)
        requires
            self.wf(),
        ensures
            lists_picked(views(r@), self@.cat.tables, |t: TableView| pins_to(t, node@)),
    {
        let p = Pinning { node };
        let r = pick_names(&self.catalog.tables, &p);
        proof {
            assert((|v: TableView| p.picks(v)) =~= (|t: TableView| pins_to(t, node@)));
        }
        r
    }

    /// The table that the index `index`, as typed in a session on `current_db`,
    /// is on, as it is shown there.
    pub fn index_owner_table(&self, index: &str, current_db: &str) -> (r: Option<String>)
        requires
            self.wf(),
        ensures
            match owner_of(self@.cat, qualified(current_db@, index@)) {
                Some(t) => r matches Some(s) && s@ == displayed(t, current_db@),
                None => r is None,
            },
    {
        let internal = qualify(current_db, index);
        if let Some(d) = def_of(&self.catalog.indexes, &internal) {
            return Some(display_name(d.table.as_str(), current_db));
        }
        if let Some(d) = def_of(&self.catalog.vector_indexes, &internal) {
            return Some(display_name(d.table.as_str(), current_db));
        }
        if let Some(d) = def_of(&self.catalog.search_indexes, &internal) {
            return Some(display_name(d.table.as_str(), current_db));
        }
        if let Some(d) = def_of(&self.catalog.geo_indexes, &internal) {
            return Some(display_name(d.table.as_str(), current_db));
        }
        None
    }

    /// What a cache over `table` is keyed by: its schema stamp, which a new
    /// table of the same name does not share, and its engine's write sequence.
    pub fn table_repair_version(&self, table: &str, write_seq: Option<u64>) -> (r: Option<
        (Hlc, u64),
    >)
        requires
            self.wf(),
        ensures
            r == (match write_seq {
                Some(seq) => {
                    let key = "t:"@ + table@;
                    let versions = self@.cat.versions;
                    Some(
                        (
                            if versions.dom().contains(key) {
                                versions[key].hlc
                            } else {
                                hlc_min()
                            },
                            seq,
                        ),
                    )
                },
                None => None,
            }),
    {
        match write_seq {
            None => None,
            Some(seq) => {
                let stamp = match def_of(&self.catalog.schema_versions, &cat("t:", table)) {
                    Some(v) => v.hlc,
                    None => Hlc::min(),
                };
                Some((stamp, seq))
            },
        }
    }
}

/// Whether a list holds every global index and whether it is still being
/// filled, in name order.
pub open spec fn lists_global(r: Seq<(String, bool)>, es: Seq<(String, IndexDef)>) -> bool
    decreases es.len(),
{
    if es.len() == 0 {
        r.len() == 0
    } else if es.last().1.global {
        r.len() > 0 && r.last().0@ == es.last().0@ && r.last().1 == es.last().1.building
            && lists_global(r.drop_last(), es.drop_last())
    } else {
        lists_global(r, es.drop_last())
    }
}

/// A definition over one column.
pub trait OnColumn: crate::catalog::OnTable {
    spec fn column_of(&self) -> Seq<char>;

    fn column(&self) -> (r: &String)
        ensures
            r@ == self.column_of(),
    ;
}

impl OnColumn for VectorIndexDef {
    open spec fn column_of(&self) -> Seq<char> {
        self.path@
    }

    fn column(&self) -> (r: &String) {
        &self.path
    }
}

impl OnColumn for GeoIndexDef {
    open spec fn column_of(&self) -> Seq<char> {
        self.path@
    }

    fn column(&self) -> (r: &String) {
        &self.path
    }
}

/// Whether a list holds the indexes on `table` with their columns, in name
/// order.
pub open spec fn lists_columns<D: OnColumn>(
    r: Seq<(String, String)>,
    es: Seq<(String, D)>,
    table: Seq<char>,
) -> bool
    decreases es.len(),
{
    if es.len() == 0 {
        r.len() == 0
    } else if D::table_of(es.last().1@) == table {
        r.len() > 0 && r.last().0@ == es.last().0@ && r.last().1@ == es.last().1.column_of()
            && lists_columns(r.drop_last(), es.drop_last(), table)
    } else {
        lists_columns(r, es.drop_last(), table)
    }
}

fn list_columns<D: OnColumn>(m: &SortedMap<String, D>, table: &str) -> (r: Vec<(String, String)>)
    requires
        m.wf(),
    ensures
        lists_columns(r@, m.entries@, table@),
{
    let ghost es = m.entries@;
    let mut out: Vec<(String, String)> = Vec::new();
    let mut i: usize = 0;
    proof {
        assert(es.take(0) =~= Seq::<(String, D)>::empty());
    }
    while i < m.len()
        invariant
            m.wf(),
            es == m.entries@,
            i <= es.len(),
            lists_columns(out@, es.take(i as int), table@),
        decreases es.len() - i,
    {
        proof {
            assert(es.take(i + 1).drop_last() =~= es.take(i as int));
            assert(es.take(i + 1).last() == es[i as int]);
        }
        let def = m.value_at(i);
        if def.on_table(table) {
            let ghost before = out@;
            out.push((m.key_at(i).clone(), def.column().clone()));
            proof {
                assert(out@.drop_last() =~= before);
            }
        }
        i = i + 1;
    }
    proof {
        assert(es.take(es.len() as int) =~= es);
    }
    out
}

/// The first vector index on a column, in name order.
pub open spec fn vector_index_on(es: Seq<(String, VectorIndexDef)>, table: Seq<char>, path: Seq<char>) -> Option<
    Seq<char>,
>
    decreases es.len(),
{
    if es.len() == 0 {
        None
    } else if es[0].1.table@ == table && es[0].1.path@ == path {
        Some(es[0].0@)
    } else {
        vector_index_on(es.skip(1), table, path)
    }
}

/// The first geo index that serves a column, in name order: one that is still
/// being filled serves nothing.
pub open spec fn geo_index_on(es: Seq<(String, GeoIndexDef)>, table: Seq<char>, path: Seq<char>) -> Option<
    Seq<char>,
>
    decreases es.len(),
{
    if es.len() == 0 {
        None
    } else if es[0].1.table@ == table && !es[0].1.building && es[0].1.path@ == path {
        Some(es[0].0@)
    } else {
        geo_index_on(es.skip(1), table, path)
    }
}

impl Database {
    /// Every global index, and whether it is still being filled.
    pub fn all_global_indexes(&self) -> (r: Vec<(String, bool)>)
        requires
            self.wf(),
        ensures
            lists_global(r@, self.catalog.indexes.entries@),
    {
        let m = &self.catalog.indexes;
        let ghost es = m.entries@;
        let mut out: Vec<(String, bool)> = Vec::new();
        let mut i: usize = 0;
        proof {
            assert(es.take(0) =~= Seq::<(String, IndexDef)>::empty());
        }
        while i < m.len()
            invariant
                m.wf(),
                es == m.entries@,
                i <= es.len(),
                lists_global(out@, es.take(i as int)),
            decreases es.len() - i,
        {
            proof {
                assert(es.take(i + 1).drop_last() =~= es.take(i as int));
                assert(es.take(i + 1).last() == es[i as int]);
            }
            let def = m.value_at(i);
            if def.global {
                let ghost before = out@;
                out.push((m.key_at(i).clone(), def.building));
                proof {
                    assert(out@.drop_last() =~= before);
                }
            }
            i = i + 1;
        }
        proof {
            assert(es.take(es.len() as int) =~= es);
        }
        out
    }

    /// The vector indexes on `table` with their columns.
    pub fn vector_indexes_on(&self, table: &str) -> (r: Vec<(String, String)>)
        requires
            self.wf(),
        ensures
            lists_columns(r@, self.catalog.vector_indexes.entries@, table@),
    {
        list_columns(&self.catalog.vector_indexes, table)
    }

    /// The geo indexes on `table` with their columns.
    pub fn geo_indexes_on(&self, table: &str) -> (r: Vec<(String, String)>)
        requires
            self.wf(),
        ensures
            lists_columns(r@, self.catalog.geo_indexes.entries@, table@),
    {
        list_columns(&self.catalog.geo_indexes, table)
    }

    /// The search indexes on `table`.
    pub fn search_indexes_on(&self, table: &str) -> (r: Vec<String>)
        requires
            self.wf(),
        ensures
            lists_on::<SearchIndexDef>(views(r@), self@.cat.search_indexes, table@),
    {
        names_on(&self.catalog.search_indexes, table)
    }

    /// The table that a vector index is on.
    pub fn vector_index_table(&self, index: &str) -> (r: Option<String>)
        requires
            self.wf(),
        ensures
            r is Some <==> self@.cat.vector_indexes.dom().contains(index@),
            r matches Some(t) ==> t@ == self@.cat.vector_indexes[index@].table,
    {
        match def_of(&self.catalog.vector_indexes, &index.to_owned()) {
            Some(d) => Some(d.table.clone()),
            None => None,
        }
    }

    /// What it takes to score a vector index's candidates exactly: the column,
    /// the dimension, the metric, and whether the graph holds rounded vectors.
    pub fn vector_index_rescore(&self, index: &str) -> (r: Option<(String, usize, String, bool)>)
        requires
            self.wf(),
        ensures
            r is Some <==> self@.cat.vector_indexes.dom().contains(index@),
            r matches Some(t) ==> {
                let d = self@.cat.vector_indexes[index@];
                t.0@ == d.path && t.1 == d.dim && t.2@ == d.metric && t.3 == d.quantized
            },
    {
        match def_of(&self.catalog.vector_indexes, &index.to_owned()) {
            Some(d) => Some((d.path.clone(), d.dim, d.metric.clone(), d.quantized)),
            None => None,
        }
    }

    /// The vector index that a `NEAREST` on the column `path` of `table` asks.
    pub fn vector_index_for(&self, table: &str, path: &str) -> (r: Option<String>)
        requires
            self.wf(),
        ensures
            crate::catalog::opt_view(r) == vector_index_on(
                self.catalog.vector_indexes.entries@,
                table@,
                path@,
            ),
    {
        let m = &self.catalog.vector_indexes;
        let ghost es = m.entries@;
        let mut i: usize = 0;
        proof {
            assert(es.skip(0) =~= es);
        }
        while i < m.len()
            invariant
                m.wf(),
                es == m.entries@,
                *m == self.catalog.vector_indexes,
                i <= es.len(),
                vector_index_on(es, table@, path@) == vector_index_on(
                    es.skip(i as int),
                    table@,
                    path@,
                ),
            decreases es.len() - i,
        {
            let d = m.value_at(i);
            proof {
                assert(es.skip(i as int)[0] == es[i as int]);
                assert(es.skip(i as int).skip(1) =~= es.skip(i + 1));
            }
            if str_eq(d.table.as_str(), table) && str_eq(d.path.as_str(), path) {
                return Some(m.key_at(i).clone());
            }
            i = i + 1;
        }
        None
    }

    /// The geo index that serves a geometric predicate on the column `path` of
    /// `table`; without one the query walks the rows.
    pub fn geo_index_for(&self, table: &str, path: &str) -> (r: Option<String>)
        requires
            self.wf(),
        ensures
            crate::catalog::opt_view(r) == geo_index_on(
                self.catalog.geo_indexes.entries@,
                table@,
                path@,
            ),
    {
        let m = &self.catalog.geo_indexes;
        let ghost es = m.entries@;
        let mut i: usize = 0;
        proof {
            assert(es.skip(0) =~= es);
        }
        while i < m.len()
            invariant
                m.wf(),
                es == m.entries@,
                *m == self.catalog.geo_indexes,
                i <= es.len(),
                geo_index_on(es, table@, path@) == geo_index_on(es.skip(i as int), table@, path@),
            decreases es.len() - i,
        {
            let d = m.value_at(i);
            proof {
                assert(es.skip(i as int)[0] == es[i as int]);
                assert(es.skip(i as int).skip(1) =~= es.skip(i + 1));
            }
            if str_eq(d.table.as_str(), table) && !d.building && str_eq(d.path.as_str(), path) {
                return Some(m.key_at(i).clone());
            }
            i = i + 1;
        }
        None
    }
}

} // verus!
