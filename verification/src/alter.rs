//! `ALTER TABLE`: options, placement changes, and renames.

use vstd::prelude::*;

use crate::catalog::defined_on;
use crate::catalog::defs;
use crate::catalog::has_def;
use crate::catalog::option_views;
use crate::catalog::put_def;
use crate::catalog::take_def;
use crate::catalog::CatalogView;
use crate::catalog::IndexDef;
use crate::catalog::IndexView;
use crate::catalog::GeoIndexDef;
use crate::catalog::GeoIndexView;
use crate::catalog::OnTable;
use crate::catalog::PlacementView;
use crate::catalog::PrevPlacement;
use crate::catalog::SearchIndexDef;
use crate::catalog::SearchIndexView;
use crate::catalog::TableDef;
use crate::catalog::TableView;
use crate::catalog::TsTableView;
use crate::catalog::VectorIndexDef;
use crate::catalog::VectorIndexView;
use crate::database::copy_strings;
use crate::database::same_strings;
use crate::database::verdict;
use crate::database::Database;
use crate::database::DbView;
use crate::ddl_database::names_ascend;
use crate::error::constraint;
use crate::error::constraint_about;
use crate::error::unsupported;
use crate::error::unsupported_about;
use crate::error::EngineError;
use crate::error::ErrorView;
use crate::namespace::is_system_table;
use crate::namespace::names_system_table;
use crate::sorted_map::ascending;
use crate::sorted_map::entry_map;
use crate::sorted_map::holds_key;
use crate::sorted_map::lemma_entry_at;
use crate::sorted_map::place_of;
use crate::sorted_map::SortKey;
use crate::sorted_map::SortedMap;
use crate::text::cat;
use crate::text::cat3;
use crate::text::parse_i64;
use crate::text::parse_unsigned;
use crate::text::pieces;
use crate::text::seq_lt;
use crate::text::signed_value;
use crate::text::split;
use crate::text::str_eq;
use crate::text::unsigned_value;
use crate::text::views;

verus! {

/// The number that a string stands for, where it fits 64 signed bits.
pub open spec fn i64_value(s: Seq<char>) -> Option<i64> {
    match signed_value(s) {
        Some(n) => if i64::MIN <= n <= i64::MAX {
            Some(n as i64)
        } else {
            None
        },
        None => None,
    }
}

/// The number that a string stands for, where it fits 32 unsigned bits.
pub open spec fn u32_value(s: Seq<char>) -> Option<u32> {
    match unsigned_value(s) {
        Some(n) => if n <= u32::MAX {
            Some(n as u32)
        } else {
            None
        },
        None => None,
    }
}

/// The members that a comma-separated list names; empty places name none.
pub open spec fn listed_nodes(val: Seq<char>) -> Seq<Seq<char>> {
    pieces(val, ',').filter(|n: Seq<char>| n.len() > 0)
}

/// The message for a second placement change while one is open.
pub open spec fn transition_message(table: Seq<char>) -> Seq<char> {
    "'"@ + table
        + "' already has a placement transition in progress; wait for it to finalize (or run REPAIR CLUSTER, then ALTER TABLE "@
        + table + " SET (placement_finalized = true))"@
}

/// Pinning a table to `nodes`. The old placement stays in force beside the
/// new one unless only nodes that held the table already remain.
pub open spec fn pinned(def: TableView, nodes: Seq<Seq<char>>) -> TableView {
    let shrink = def.pinned_nodes.len() > 0 && forall|i: int|
        0 <= i < nodes.len() ==> def.pinned_nodes.contains(#[trigger] nodes[i]);
    TableView {
        prev_placement: if !shrink && def.pinned_nodes != nodes {
            Some(
                PlacementView { replication: def.replication, pinned_nodes: def.pinned_nodes },
            )
        } else {
            def.prev_placement
        },
        replication: None,
        pinned_nodes: nodes,
        ..def
    }
}

/// Placing a table on the ring with `n` copies. The old placement stays in
/// force beside the new one where anything changes.
pub open spec fn replicated(def: TableView, n: u32) -> TableView {
    if def.replication != Some(n) || def.pinned_nodes.len() > 0 {
        TableView {
            prev_placement: Some(
                PlacementView { replication: def.replication, pinned_nodes: def.pinned_nodes },
            ),
            pinned_nodes: Seq::empty(),
            replication: Some(n),
            ..def
        }
    } else {
        def
    }
}

/// A table's definition after one option, or why the option is refused.
pub open spec fn with_option(table: Seq<char>, def: TableView, o: (Seq<char>, Seq<char>)) -> Result<
    TableView,
    ErrorView,
> {
    let val = o.1;
    if o.0 == "witness"@ {
        Ok(TableView { witness: val == "true"@ || val == "1"@, ..def })
    } else if o.0 == "nodes"@ {
        if listed_nodes(val).len() == 0 {
            Err(
                ErrorView::Constraint(
                    "SET (nodes = ...) needs at least one member; to unpin, transition to ring placement with SET (replication = n)"@,
                ),
            )
        } else if def.prev_placement is Some {
            Err(ErrorView::Constraint(transition_message(table)))
        } else {
            Ok(pinned(def, listed_nodes(val)))
        }
    } else if o.0 == "replication"@ {
        match u32_value(val) {
            None => Err(
                ErrorView::Constraint(
                    "replication must be a positive integer, got '"@ + val + "'"@,
                ),
            ),
            Some(n) => if n == 0 {
                Err(ErrorView::Constraint("replication must be at least 1"@))
            } else if def.prev_placement is Some {
                Err(ErrorView::Constraint(transition_message(table)))
            } else {
                Ok(replicated(def, n))
            },
        }
    } else if o.0 == "ttl"@ {
        match i64_value(val) {
            None => Err(
                ErrorView::Constraint(
                    "ttl must be a duration like 30d (or integer ms), got '"@ + val + "'"@,
                ),
            ),
            Some(ms) => if ms < 0 {
                Err(ErrorView::Constraint("ttl must not be negative"@))
            } else {
                Ok(
                    TableView {
                        ttl_ms: if ms > 0 {
                            Some(ms)
                        } else {
                            None
                        },
                        ..def
                    },
                )
            },
        }
    } else if o.0 == "placement_finalized"@ {
        Ok(TableView { prev_placement: None, ..def })
    } else {
        Err(
            ErrorView::Unsupported(
                "unknown ALTER TABLE option '"@ + o.0
                    + "' (supported: ttl, witness, nodes, replication, placement_finalized; retention/ooo apply to TIMESERIES tables)"@,
            ),
        )
    }
}

/// A table's definition after a list of options: those before the first
/// refused one have taken effect.
pub open spec fn with_options(
    table: Seq<char>,
    def: TableView,
    os: Seq<(Seq<char>, Seq<char>)>,
) -> (Option<ErrorView>, TableView)
    decreases os.len(),
{
    if os.len() == 0 {
        (None, def)
    } else {
        match with_option(table, def, os[0]) {
            Err(e) => (Some(e), def),
            Ok(next) => with_options(table, next, os.drop_first()),
        }
    }
}

/// A time-series table's definition after one option, or why it is refused.
pub open spec fn with_ts_option(def: TsTableView, o: (Seq<char>, Seq<char>)) -> Result<
    TsTableView,
    ErrorView,
> {
    match i64_value(o.1) {
        None => Err(
            ErrorView::Constraint(
                o.0 + " must be a duration like 60d (or integer ms), got '"@ + o.1 + "'"@,
            ),
        ),
        Some(ms) => if ms < 0 {
            Err(ErrorView::Constraint(o.0 + " must not be negative"@))
        } else if o.0 == "retention"@ {
            Ok(
                TsTableView {
                    retention_ms: if ms > 0 {
                        Some(ms)
                    } else {
                        None
                    },
                    ..def
                },
            )
        } else if o.0 == "ooo"@ {
            Ok(TsTableView { ooo_window_ms: ms, ..def })
        } else {
            Err(
                ErrorView::Unsupported(
                    "unknown ALTER TABLE option '"@ + o.0
                        + "' for a timeseries table (supported: retention, ooo)"@,
                ),
            )
        },
    }
}

/// A time-series table's definition after a list of options.
pub open spec fn with_ts_options(def: TsTableView, os: Seq<(Seq<char>, Seq<char>)>) -> (
    Option<ErrorView>,
    TsTableView,
)
    decreases os.len(),
{
    if os.len() == 0 {
        (None, def)
    } else {
        match with_ts_option(def, os[0]) {
            Err(e) => (Some(e), def),
            Ok(next) => with_ts_options(next, os.drop_first()),
        }
    }
}

/// A result that is an error or nothing.
pub open spec fn refused(e: Option<ErrorView>) -> Result<(), ErrorView> {
    match e {
        Some(x) => Err(x),
        None => Ok(()),
    }
}

/// The nonempty pieces of a comma-separated list.
fn parse_nodes(val: &str) -> (r: Vec<String>)
    ensures
        views(r@) == listed_nodes(val@),
{
    let parts = split(val, ',');
    let ghost ps = pieces(val@, ',');
    let ghost p = |n: Seq<char>| n.len() > 0;
    let mut out: Vec<String> = Vec::new();
    let mut i: usize = 0;
    proof {
        assert(ps.take(0) =~= Seq::<Seq<char>>::empty());
        assert(views(out@) =~= ps.take(0).filter(p));
    }
    while i < parts.len()
        invariant
            i <= parts@.len(),
            views(parts@) == ps,
            parts@.len() == ps.len(),
            p == (|n: Seq<char>| n.len() > 0),
            views(out@) == ps.take(i as int).filter(p),
        decreases parts@.len() - i,
    {
        proof {
            assert(views(parts@)[i as int] == parts@[i as int]@);
            assert(ps.take(i + 1) =~= ps.take(i as int).push(ps[i as int]));
            ps.take(i as int).lemma_filter_push(ps[i as int], p);
        }
        if !parts[i].as_str().is_empty() {
            let ghost before = views(out@);
            out.push(parts[i].clone());
            proof {
                assert(views(out@) =~= before.push(ps[i as int]));
            }
        }
        i = i + 1;
    }
    proof {
        assert(ps.take(ps.len() as int) =~= ps);
    }
    out
}

/// Whether every name of `names` is in `list`.
fn all_in(names: &Vec<String>, list: &Vec<String>) -> (r: bool)
    ensures
        r == forall|i: int|
            0 <= i < names@.len() ==> views(list@).contains(#[trigger] views(names@)[i]),
{
    let mut i: usize = 0;
    while i < names.len()
        invariant
            i <= names@.len(),
            forall|k: int| 0 <= k < i ==> views(list@).contains(#[trigger] views(names@)[k]),
        decreases names@.len() - i,
    {
        if !crate::auth::contains_name(list, names[i].as_str()) {
            proof {
                assert(!views(list@).contains(views(names@)[i as int]));
            }
            return false;
        }
        i = i + 1;
    }
    true
}

fn transition_open(table: &str) -> (r: EngineError)
    ensures
        r@ == ErrorView::Constraint(transition_message(table@)),
{
    let head = cat3(
        "'",
        table,
        "' already has a placement transition in progress; wait for it to finalize (or run REPAIR CLUSTER, then ALTER TABLE ",
    );
    constraint_about(head.as_str(), table, " SET (placement_finalized = true))")
}

/// Applies one option to a table's definition.
fn set_option(table: &str, def: &mut TableDef, key: &str, val: &str) -> (r: Result<
    (),
    EngineError,
>)
    ensures
        match with_option(table@, old(def)@, (key@, val@)) {
            Ok(next) => r is Ok && final(def)@ == next,
            Err(e) => verdict(r) == Err::<(), ErrorView>(e) && final(def)@ == old(def)@,
        },
{
    if str_eq(key, "witness") {
        def.witness = str_eq(val, "true") || str_eq(val, "1");
        return Ok(());
    }
    if str_eq(key, "nodes") {
        let nodes = parse_nodes(val);
        if nodes.len() == 0 {
            return Err(
                constraint(
                    "SET (nodes = ...) needs at least one member; to unpin, transition to ring placement with SET (replication = n)",
                ),
            );
        }
        if def.prev_placement.is_some() {
            return Err(transition_open(table));
        }
        let shrink: bool = def.pinned_nodes.len() > 0 && all_in(&nodes, &def.pinned_nodes);
        proof {
            let ns = listed_nodes(val@);
            assert(ns == views(nodes@));
            assert(def@.pinned_nodes == views(def.pinned_nodes@));
        }
        if !shrink && !same_strings(&def.pinned_nodes, &nodes) {
            def.prev_placement = Some(
                PrevPlacement {
                    replication: def.replication,
                    pinned_nodes: copy_strings(&def.pinned_nodes),
                },
            );
        }
        def.replication = None;
        def.pinned_nodes = nodes;
        return Ok(());
    }
    if str_eq(key, "replication") {
        let n: u32 = match parse_unsigned(val, 0xffff_ffff) {
            None => {
                return Err(
                    constraint_about("replication must be a positive integer, got '", val, "'"),
                );
            },
            Some(n) => n as u32,
        };
        if n == 0 {
            return Err(constraint("replication must be at least 1"));
        }
        if def.prev_placement.is_some() {
            return Err(transition_open(table));
        }
        let same: bool = match def.replication {
            Some(k) => k == n,
            None => false,
        };
        if !same || def.pinned_nodes.len() > 0 {
            def.prev_placement = Some(
                PrevPlacement {
                    replication: def.replication,
                    pinned_nodes: copy_strings(&def.pinned_nodes),
                },
            );
            def.pinned_nodes = Vec::new();
            def.replication = Some(n);
            proof {
                assert(def@.pinned_nodes =~= Seq::<Seq<char>>::empty());
            }
        }
        return Ok(());
    }
    if str_eq(key, "ttl") {
        let ms: i64 = match parse_i64(val) {
            None => {
                return Err(
                    constraint_about(
                        "ttl must be a duration like 30d (or integer ms), got '",
                        val,
                        "'",
                    ),
                );
            },
            Some(ms) => ms,
        };
        if ms < 0 {
            return Err(constraint("ttl must not be negative"));
        }
        def.ttl_ms = if ms > 0 {
            Some(ms)
        } else {
            None
        };
        return Ok(());
    }
    if str_eq(key, "placement_finalized") {
        def.prev_placement = None;
        return Ok(());
    }
    Err(
        unsupported_about(
            "unknown ALTER TABLE option '",
            key,
            "' (supported: ttl, witness, nodes, replication, placement_finalized; retention/ooo apply to TIMESERIES tables)",
        ),
    )
}

/// `p` with the column `from` called `to`; a multikey path keeps its marker.
pub open spec fn renamed_path(p: Seq<char>, from: Seq<char>, to: Seq<char>) -> Seq<char> {
    if p == from {
        to
    } else if p == from + "[]"@ {
        to + "[]"@
    } else {
        p
    }
}

/// `p` with the column `from` called `to`.
pub open spec fn renamed_column(p: Seq<char>, from: Seq<char>, to: Seq<char>) -> Seq<char> {
    if p == from {
        to
    } else {
        p
    }
}

/// A list of columns with `from` called `to`.
pub open spec fn renamed_columns(ps: Seq<Seq<char>>, from: Seq<char>, to: Seq<char>) -> Seq<
    Seq<char>,
> {
    ps.map_values(|p: Seq<char>| renamed_column(p, from, to))
}

/// A list of index paths with `from` called `to`.
pub open spec fn renamed_paths(ps: Seq<Seq<char>>, from: Seq<char>, to: Seq<char>) -> Seq<
    Seq<char>,
> {
    ps.map_values(|p: Seq<char>| renamed_path(p, from, to))
}

fn rename_columns(ps: &Vec<String>, from: &str, to: &str) -> (r: Vec<String>)
    ensures
        views(r@) == renamed_columns(views(ps@), from@, to@),
{
    let ghost vs = views(ps@);
    let mut out: Vec<String> = Vec::new();
    let mut i: usize = 0;
    proof {
        assert(views(out@) =~= renamed_columns(vs.take(0), from@, to@));
    }
    while i < ps.len()
        invariant
            i <= ps@.len(),
            vs == views(ps@),
            views(out@) == renamed_columns(vs.take(i as int), from@, to@),
        decreases ps@.len() - i,
    {
        let ghost before = views(out@);
        if str_eq(ps[i].as_str(), from) {
            out.push(to.to_owned());
        } else {
            out.push(ps[i].clone());
        }
        proof {
            assert(views(out@) =~= before.push(renamed_column(vs[i as int], from@, to@)));
            assert(renamed_columns(vs.take(i + 1), from@, to@) =~= renamed_columns(
                vs.take(i as int),
                from@,
                to@,
            ).push(renamed_column(vs[i as int], from@, to@)));
        }
        i = i + 1;
    }
    proof {
        assert(vs.take(vs.len() as int) =~= vs);
    }
    out
}

fn rename_paths(ps: &Vec<String>, from: &str, to: &str) -> (r: Vec<String>)
    ensures
        views(r@) == renamed_paths(views(ps@), from@, to@),
{
    let ghost vs = views(ps@);
    let marked = cat(from, "[]");
    let mut out: Vec<String> = Vec::new();
    let mut i: usize = 0;
    proof {
        assert(views(out@) =~= renamed_paths(vs.take(0), from@, to@));
    }
    while i < ps.len()
        invariant
            i <= ps@.len(),
            vs == views(ps@),
            marked@ == from@ + "[]"@,
            views(out@) == renamed_paths(vs.take(i as int), from@, to@),
        decreases ps@.len() - i,
    {
        let ghost before = views(out@);
        if str_eq(ps[i].as_str(), from) {
            out.push(to.to_owned());
        } else if ps[i] == marked {
            out.push(cat(to, "[]"));
        } else {
            out.push(ps[i].clone());
        }
        proof {
            assert(views(out@) =~= before.push(renamed_path(vs[i as int], from@, to@)));
            assert(renamed_paths(vs.take(i + 1), from@, to@) =~= renamed_paths(
                vs.take(i as int),
                from@,
                to@,
            ).push(renamed_path(vs[i as int], from@, to@)));
        }
        i = i + 1;
    }
    proof {
        assert(vs.take(vs.len() as int) =~= vs);
    }
    out
}

/// A definition that follows a table or a column to its new name.
pub trait Renamed: OnTable {
    /// The definition with the table `old` called `new`.
    spec fn on_renamed_table(v: Self::V, from: Seq<char>, to: Seq<char>) -> Self::V;

    /// The definition with the column `from` called `to`.
    spec fn on_renamed_column(v: Self::V, from: Seq<char>, to: Seq<char>) -> Self::V;

    fn follow_table(&mut self, from: &str, to: &str)
        ensures
            final(self)@ == Self::on_renamed_table(old(self)@, from@, to@),
    ;

    fn follow_column(&mut self, from: &str, to: &str)
        ensures
            final(self)@ == Self::on_renamed_column(old(self)@, from@, to@),
    ;
}

impl Renamed for IndexDef {
    open spec fn on_renamed_table(v: IndexView, from: Seq<char>, to: Seq<char>) -> IndexView {
        IndexView { table: renamed_column(v.table, from, to), ..v }
    }

    open spec fn on_renamed_column(v: IndexView, from: Seq<char>, to: Seq<char>) -> IndexView {
        IndexView { paths: renamed_paths(v.paths, from, to), ..v }
    }

    fn follow_table(&mut self, from: &str, to: &str) {
        if str_eq(self.table.as_str(), from) {
            self.table = to.to_owned();
        }
    }

    fn follow_column(&mut self, from: &str, to: &str) {
        let paths = rename_paths(&self.paths, from, to);
        self.paths = paths;
    }
}

impl Renamed for VectorIndexDef {
    open spec fn on_renamed_table(v: VectorIndexView, from: Seq<char>, to: Seq<char>) -> VectorIndexView {
        VectorIndexView { table: renamed_column(v.table, from, to), ..v }
    }

    open spec fn on_renamed_column(v: VectorIndexView, from: Seq<char>, to: Seq<char>) -> VectorIndexView {
        VectorIndexView { path: renamed_column(v.path, from, to), ..v }
    }

    fn follow_table(&mut self, from: &str, to: &str) {
        if str_eq(self.table.as_str(), from) {
            self.table = to.to_owned();
        }
    }

    fn follow_column(&mut self, from: &str, to: &str) {
        if str_eq(self.path.as_str(), from) {
            self.path = to.to_owned();
        }
    }
}

impl Renamed for SearchIndexDef {
    open spec fn on_renamed_table(v: SearchIndexView, from: Seq<char>, to: Seq<char>) -> SearchIndexView {
        SearchIndexView { table: renamed_column(v.table, from, to), ..v }
    }

    open spec fn on_renamed_column(v: SearchIndexView, from: Seq<char>, to: Seq<char>) -> SearchIndexView {
        SearchIndexView { paths: renamed_columns(v.paths, from, to), ..v }
    }

    fn follow_table(&mut self, from: &str, to: &str) {
        if str_eq(self.table.as_str(), from) {
            self.table = to.to_owned();
        }
    }

    fn follow_column(&mut self, from: &str, to: &str) {
        let paths = rename_columns(&self.paths, from, to);
        self.paths = paths;
    }
}

impl Renamed for GeoIndexDef {
    open spec fn on_renamed_table(v: GeoIndexView, from: Seq<char>, to: Seq<char>) -> GeoIndexView {
        GeoIndexView { table: renamed_column(v.table, from, to), ..v }
    }

    open spec fn on_renamed_column(v: GeoIndexView, from: Seq<char>, to: Seq<char>) -> GeoIndexView {
        GeoIndexView { path: renamed_column(v.path, from, to), ..v }
    }

    fn follow_table(&mut self, from: &str, to: &str) {
        if str_eq(self.table.as_str(), from) {
            self.table = to.to_owned();
        }
    }

    fn follow_column(&mut self, from: &str, to: &str) {
        if str_eq(self.path.as_str(), from) {
            self.path = to.to_owned();
        }
    }
}

/// Every definition with the table `from` called `to`.
pub open spec fn all_on_renamed_table<D: Renamed>(
    m: Map<Seq<char>, D::V>,
    from: Seq<char>,
    to: Seq<char>,
) -> Map<Seq<char>, D::V> {
    m.map_values(|d: D::V| D::on_renamed_table(d, from, to))
}

/// A definition with the column `from` of `table` called `to`; one on another
/// table is as it was.
pub open spec fn on_column_of<D: Renamed>(
    d: D::V,
    table: Seq<char>,
    from: Seq<char>,
    to: Seq<char>,
) -> D::V {
    if D::table_of(d) == table {
        D::on_renamed_column(d, from, to)
    } else {
        d
    }
}

/// Every definition with the column `from` of `table` called `to`.
pub open spec fn all_on_renamed_column<D: Renamed>(
    m: Map<Seq<char>, D::V>,
    table: Seq<char>,
    from: Seq<char>,
    to: Seq<char>,
) -> Map<Seq<char>, D::V> {
    m.map_values(|d: D::V| on_column_of::<D>(d, table, from, to))
}

/// Entries with the same keys make maps of the same names, value by value.
proof fn lemma_same_keys<D: View>(a: Seq<(String, D)>, b: Seq<(String, D)>, f: spec_fn(D::V) -> D::V)
    requires
        ascending(a),
        a.len() == b.len(),
        forall|i: int|
            0 <= i < a.len() ==> (#[trigger] b[i]).0 == a[i].0 && b[i].1@ == f(a[i].1@),
    ensures
        ascending(b),
        entry_map(b).map_values(|d: D| d@) == entry_map(a).map_values(|d: D| d@).map_values(f),
{
    assert forall|i: int, j: int| 0 <= i < j < b.len() implies <String as SortKey>::below(
        (#[trigger] b[i]).0.model(),
        (#[trigger] b[j]).0.model(),
    ) by {
        assert(b[i].0 == a[i].0 && b[j].0 == a[j].0);
        assert(<String as SortKey>::below(a[i].0.model(), a[j].0.model()));
    }
    let x = entry_map(b).map_values(|d: D| d@);
    let y = entry_map(a).map_values(|d: D| d@).map_values(f);
    assert forall|n: Seq<char>| #[trigger] x.dom().contains(n) <==> y.dom().contains(n) by {
        if holds_key(b, n) {
            let p = place_of(b, n);
            assert(b[p].0 == a[p].0);
            lemma_entry_at(a, p);
        }
        if holds_key(a, n) {
            let p = place_of(a, n);
            assert(b[p].0 == a[p].0);
            lemma_entry_at(b, p);
        }
    }
    assert forall|n: Seq<char>| #[trigger] x.dom().contains(n) implies x[n] == y[n] by {
        let p = place_of(b, n);
        assert(b[p].0 == a[p].0);
        lemma_entry_at(a, p);
        lemma_entry_at(b, p);
    }
    assert(x =~= y);
}

/// Moves every definition on a renamed table to its new name.
fn follow_table_all<D: Renamed>(m: &mut SortedMap<String, D>, from: &str, to: &str)
    requires
        old(m).wf(),
    ensures
        final(m).wf(),
        defs(*final(m)) == all_on_renamed_table::<D>(defs(*old(m)), from@, to@),
{
    let ghost start = m.entries@;
    let mut left: Vec<(String, D)> = Vec::new();
    left.append(&mut m.entries);
    let mut out: Vec<(String, D)> = Vec::new();
    proof {
        assert(left@ =~= start);
    }
    for entry in it: left
        invariant
            it.seq() == start,
            out@.len() == it.index(),
            forall|i: int|
                0 <= i < out@.len() ==> (#[trigger] out@[i]).0 == start[i].0 && out@[i].1@
                    == D::on_renamed_table(start[i].1@, from@, to@),
    {
        proof {
            assert(start[it.index() as int] == entry);
        }
        let (name, mut def) = entry;
        def.follow_table(from, to);
        out.push((name, def));
    }
    m.entries = out;
    proof {
        lemma_same_keys(start, m.entries@, |d: D::V| D::on_renamed_table(d, from@, to@));
    }
}

/// Moves every definition over a renamed column of `table` to its new name.
fn follow_column_all<D: Renamed>(m: &mut SortedMap<String, D>, table: &str, from: &str, to: &str)
    requires
        old(m).wf(),
    ensures
        final(m).wf(),
        defs(*final(m)) == all_on_renamed_column::<D>(defs(*old(m)), table@, from@, to@),
{
    let ghost start = m.entries@;
    let mut left: Vec<(String, D)> = Vec::new();
    left.append(&mut m.entries);
    let mut out: Vec<(String, D)> = Vec::new();
    proof {
        assert(left@ =~= start);
    }
    for entry in it: left
        invariant
            it.seq() == start,
            out@.len() == it.index(),
            forall|i: int|
                0 <= i < out@.len() ==> (#[trigger] out@[i]).0 == start[i].0 && out@[i].1@
                    == on_column_of::<D>(start[i].1@, table@, from@, to@),
    {
        proof {
            assert(start[it.index() as int] == entry);
        }
        let (name, mut def) = entry;
        if def.on_table(table) {
            def.follow_column(from, to);
        }
        out.push((name, def));
    }
    m.entries = out;
    proof {
        lemma_same_keys(start, m.entries@, |d: D::V| on_column_of::<D>(d, table@, from@, to@));
    }
}

/// Whether `names` lists, in order, exactly the definitions on `table`.
pub open spec fn lists_on<D: OnTable>(
    names: Seq<Seq<char>>,
    m: Map<Seq<char>, D::V>,
    table: Seq<char>,
) -> bool {
    names_ascend(names) && forall|n: Seq<char>| #[trigger]
        names.contains(n) <==> defined_on::<D>(m, table, n)
}

/// The names of the definitions on `table`, in order.
pub fn names_on<D: OnTable>(m: &SortedMap<String, D>, table: &str) -> (r: Vec<String>)
    requires
        m.wf(),
    ensures
        lists_on::<D>(views(r@), defs(*m), table@),
{
    let mut out: Vec<String> = Vec::new();
    let ghost mut from: Seq<int> = Seq::empty();
    let mut i: usize = 0;
    let ghost es = m.entries@;
    while i < m.len()
        invariant
            m.wf(),
            es == m.entries@,
            i <= es.len(),
            from.len() == out@.len(),
            forall|k: int| 0 <= k < from.len() ==> 0 <= #[trigger] from[k] < i,
            forall|k: int|
                0 <= k < from.len() ==> (#[trigger] out@[k])@ == es[from[k]].0@ && D::table_of(
                    es[from[k]].1@,
                ) == table@,
            forall|a: int, b: int|
                0 <= a < b < from.len() ==> #[trigger] from[a] < #[trigger] from[b],
            forall|j: int|
                0 <= j < i && D::table_of((#[trigger] es[j]).1@) == table@ ==> from.contains(j),
        decreases es.len() - i,
    {
        let ghost prev = from;
        if m.value_at(i).on_table(table) {
            out.push(m.key_at(i).clone());
            proof {
                from = from.push(i as int);
                assert(from[prev.len() as int] == i);
            }
        }
        proof {
            assert forall|j: int| 0 <= j < i + 1 && D::table_of((#[trigger] es[j]).1@)
                == table@ implies from.contains(j) by {
                if j < i {
                    assert(prev.contains(j));
                    let k = choose|k: int| 0 <= k < prev.len() && prev[k] == j;
                    assert(from[k] == j);
                } else {
                    assert(from[prev.len() as int] == j);
                }
            }
        }
        i = i + 1;
    }
    proof {
        let names = views(out@);
        assert forall|a: int, b: int| 0 <= a < b < names.len() implies seq_lt(
            #[trigger] names[a],
            #[trigger] names[b],
        ) by {
            assert(out@[a]@ == es[from[a]].0@);
            assert(out@[b]@ == es[from[b]].0@);
            assert(from[a] < from[b]);
            assert(<String as SortKey>::below(es[from[a]].0.model(), es[from[b]].0.model()));
        }
        assert forall|n: Seq<char>| #[trigger]
            names.contains(n) <==> defined_on::<D>(defs(*m), table@, n) by {
            if names.contains(n) {
                let k = choose|k: int| 0 <= k < names.len() && names[k] == n;
                assert(out@[k]@ == es[from[k]].0@);
                lemma_entry_at(es, from[k]);
            }
            if defined_on::<D>(defs(*m), table@, n) {
                let p = place_of(es, n);
                lemma_entry_at(es, p);
                assert(es[p].0@ == n);
                assert(from.contains(p));
                let k = choose|k: int| 0 <= k < from.len() && from[k] == p;
                assert(out@[k]@ == n);
                assert(names[k] == n);
            }
        }
    }
    out
}

/// Every index on `table` as building.
pub open spec fn rebuilding(m: Map<Seq<char>, IndexView>, table: Seq<char>) -> Map<
    Seq<char>,
    IndexView,
> {
    m.map_values(
        |d: IndexView|
            if d.table == table {
                IndexView { building: true, ..d }
            } else {
                d
            },
    )
}

/// A catalog with the column `from` of `table` called `to`, in the table's key
/// and in the paths of its indexes. What is on other tables stays.
pub open spec fn column_renamed(v: CatalogView, table: Seq<char>, from: Seq<char>, to: Seq<char>) -> CatalogView {
    CatalogView {
        tables: if v.tables.dom().contains(table) {
            v.tables.insert(
                table,
                TableView {
                    primary_key: renamed_columns(v.tables[table].primary_key, from, to),
                    ..v.tables[table]
                },
            )
        } else {
            v.tables
        },
        indexes: all_on_renamed_column::<IndexDef>(v.indexes, table, from, to),
        vector_indexes: all_on_renamed_column::<VectorIndexDef>(v.vector_indexes, table, from, to),
        search_indexes: all_on_renamed_column::<SearchIndexDef>(v.search_indexes, table, from, to),
        geo_indexes: all_on_renamed_column::<GeoIndexDef>(v.geo_indexes, table, from, to),
        ..v
    }
}

/// What `ALTER TABLE ... SET (...)` does to an ordinary table. The options
/// before the first that is refused are set.
pub open spec fn table_options_step(
    v: DbView,
    table: Seq<char>,
    options: Seq<(Seq<char>, Seq<char>)>,
) -> (Result<(), ErrorView>, DbView) {
    let done = with_options(table, v.cat.tables[table], options);
    if names_system_table(table) {
        (
            Err(
                ErrorView::Constraint(
                    "'"@ + table
                        + "' is a system table: placement/witness options are not allowed"@,
                ),
            ),
            v,
        )
    } else {
        (
            refused(done.0),
            DbView {
                cat: CatalogView { tables: v.cat.tables.insert(table, done.1), ..v.cat },
                ..v
            },
        )
    }
}

/// What `ALTER TABLE ... SET (...)` does to a time-series table.
pub open spec fn ts_options_step(
    v: DbView,
    table: Seq<char>,
    options: Seq<(Seq<char>, Seq<char>)>,
) -> (Result<(), ErrorView>, DbView) {
    let done = with_ts_options(v.cat.timeseries[table], options);
    (
        refused(done.0),
        DbView {
            cat: CatalogView { timeseries: v.cat.timeseries.insert(table, done.1), ..v.cat },
            ..v
        },
    )
}

/// What `ALTER TABLE ... RENAME TO` does.
pub open spec fn rename_table_step(v: DbView, from: Seq<char>, to: Seq<char>) -> (
    Result<(), ErrorView>,
    DbView,
) {
    if v.cat.tables.dom().contains(to) {
        (Err(ErrorView::TableExists(to)), v)
    } else {
        (
            Ok(()),
            DbView {
                cat: CatalogView {
                    tables: v.cat.tables.remove(from).insert(to, v.cat.tables[from]),
                    indexes: all_on_renamed_table::<IndexDef>(v.cat.indexes, from, to),
                    vector_indexes: all_on_renamed_table::<VectorIndexDef>(
                        v.cat.vector_indexes,
                        from,
                        to,
                    ),
                    search_indexes: all_on_renamed_table::<SearchIndexDef>(
                        v.cat.search_indexes,
                        from,
                        to,
                    ),
                    geo_indexes: all_on_renamed_table::<GeoIndexDef>(
                        v.cat.geo_indexes,
                        from,
                        to,
                    ),
                    ..v.cat
                },
                ..v
            },
        )
    }
}

impl Database {
    /// `ALTER TABLE ... SET (...)` on an ordinary table.
    pub fn set_table_options(&mut self, table: &str, options: &Vec<(String, String)>) -> (r: Result<
        (),
        EngineError,
    >)
        requires
            old(self).wf(),
            old(self)@.cat.tables.dom().contains(table@),
        ensures
            final(self).wf(),
            (verdict(r), final(self)@) == table_options_step(
                old(self)@,
                table@,
                option_views(options@),
            ),
    {
        if is_system_table(table) {
            return Err(
                constraint_about(
                    "'",
                    table,
                    "' is a system table: placement/witness options are not allowed",
                ),
            );
        }
        let table_owned = table.to_owned();
        let ghost before = self@.cat.tables;
        let mut r: Result<(), EngineError> = Ok(());
        if let Some(mut def) = take_def(&mut self.catalog.tables, &table_owned) {
            let ghost os = option_views(options@);
            let ghost whole = with_options(table@, def@, os);
            let mut i: usize = 0;
            let mut failed: bool = false;
            proof {
                assert(os.skip(0) =~= os);
            }
            while i < options.len() && !failed
                invariant
                    i <= options@.len(),
                    os == option_views(options@),
                    failed ==> whole.1 == def@ && verdict(r) == refused(whole.0) && r is Err,
                    !failed ==> r is Ok && whole == with_options(table@, def@, os.skip(i as int)),
                decreases options@.len() - i,
            {
                proof {
                    assert(os.skip(i as int).drop_first() =~= os.skip(i + 1));
                    assert(os.skip(i as int)[0] == os[i as int]);
                }
                match set_option(table, &mut def, options[i].0.as_str(), options[i].1.as_str()) {
                    Ok(_) => {},
                    Err(e) => {
                        r = Err(e);
                        failed = true;
                    },
                }
                i = i + 1;
            }
            let ghost dv = def@;
            put_def(&mut self.catalog.tables, table_owned, def);
            proof {
                assert(self@.cat.tables =~= before.insert(table@, dv));
            }
        }
        r
    }

    /// `ALTER TABLE ... SET (...)` on a time-series table.
    pub fn set_ts_table_options(&mut self, table: &str, options: &Vec<(String, String)>) -> (r:
        Result<(), EngineError>)
        requires
            old(self).wf(),
            old(self)@.cat.timeseries.dom().contains(table@),
        ensures
            final(self).wf(),
            (verdict(r), final(self)@) == ts_options_step(
                old(self)@,
                table@,
                option_views(options@),
            ),
    {
        let table_owned = table.to_owned();
        let ghost before = self@.cat.timeseries;
        let mut r: Result<(), EngineError> = Ok(());
        if let Some(mut def) = take_def(&mut self.catalog.timeseries, &table_owned) {
            let ghost os = option_views(options@);
            let ghost whole = with_ts_options(def@, os);
            let mut i: usize = 0;
            let mut failed: bool = false;
            proof {
                assert(os.skip(0) =~= os);
            }
            while i < options.len() && !failed
                invariant
                    i <= options@.len(),
                    os == option_views(options@),
                    failed ==> whole.1 == def@ && verdict(r) == refused(whole.0) && r is Err,
                    !failed ==> r is Ok && whole == with_ts_options(def@, os.skip(i as int)),
                decreases options@.len() - i,
            {
                proof {
                    assert(os.skip(i as int).drop_first() =~= os.skip(i + 1));
                    assert(os.skip(i as int)[0] == os[i as int]);
                }
                let key = options[i].0.as_str();
                let val = options[i].1.as_str();
                match parse_i64(val) {
                    None => {
                        let head = cat3(
                            key,
                            " must be a duration like 60d (or integer ms), got '",
                            val,
                        );
                        r = Err(EngineError::Constraint(cat(head.as_str(), "'")));
                        failed = true;
                    },
                    Some(ms) => {
                        if ms < 0 {
                            r = Err(EngineError::Constraint(cat(key, " must not be negative")));
                            failed = true;
                        } else if str_eq(key, "retention") {
                            def.retention_ms = if ms > 0 {
                                Some(ms)
                            } else {
                                None
                            };
                        } else if str_eq(key, "ooo") {
                            def.ooo_window_ms = ms;
                        } else {
                            r = Err(
                                unsupported_about(
                                    "unknown ALTER TABLE option '",
                                    key,
                                    "' for a timeseries table (supported: retention, ooo)",
                                ),
                            );
                            failed = true;
                        }
                    },
                }
                i = i + 1;
            }
            let ghost dv = def@;
            put_def(&mut self.catalog.timeseries, table_owned, def);
            proof {
                assert(self@.cat.timeseries =~= before.insert(table@, dv));
            }
        }
        r
    }

    /// `ALTER TABLE old RENAME TO new`: the indexes of every sort on the table
    /// follow it.
    pub fn rename_table(&mut self, from: &str, to: &str) -> (r: Result<(), EngineError>)
        requires
            old(self).wf(),
            old(self)@.cat.tables.dom().contains(from@),
        ensures
            final(self).wf(),
            (verdict(r), final(self)@) == rename_table_step(old(self)@, from@, to@),
    {
        let to_owned = to.to_owned();
        if has_def(&self.catalog.tables, &to_owned) {
            return Err(EngineError::TableExists(to_owned));
        }
        if let Some(def) = take_def(&mut self.catalog.tables, &from.to_owned()) {
            put_def(&mut self.catalog.tables, to_owned, def);
        }
        follow_table_all(&mut self.catalog.indexes, from, to);
        follow_table_all(&mut self.catalog.vector_indexes, from, to);
        follow_table_all(&mut self.catalog.search_indexes, from, to);
        follow_table_all(&mut self.catalog.geo_indexes, from, to);
        Ok(())
    }

    /// The catalog half of `ALTER TABLE ... RENAME COLUMN`: the table's key and
    /// the paths of its indexes follow the column.
    pub fn rename_column_paths(&mut self, table: &str, from: &str, to: &str)
        requires
            old(self).wf(),
        ensures
            final(self).wf(),
            final(self)@ == (DbView {
                cat: column_renamed(old(self)@.cat, table@, from@, to@),
                ..old(self)@
            }),
    {
        let ghost v = self@.cat;
        let table_owned = table.to_owned();
        if let Some(mut def) = take_def(&mut self.catalog.tables, &table_owned) {
            let ghost before = def@;
            let pk = rename_columns(&def.primary_key, from, to);
            def.primary_key = pk;
            let ghost dv = def@;
            put_def(&mut self.catalog.tables, table_owned, def);
            proof {
                assert(self@.cat.tables =~= v.tables.insert(table@, dv));
            }
        } else {
            proof {
                assert(self@.cat.tables =~= v.tables);
            }
        }
        follow_column_all(&mut self.catalog.indexes, table, from, to);
        follow_column_all(&mut self.catalog.vector_indexes, table, from, to);
        follow_column_all(&mut self.catalog.search_indexes, table, from, to);
        follow_column_all(&mut self.catalog.geo_indexes, table, from, to);
    }

    /// Marks a secondary index as building again and its backfill as owed.
    pub fn rebuild_index(&mut self, name: &str) -> (r: Result<(), EngineError>)
        requires
            old(self).wf(),
        ensures
            final(self).wf(),
            !old(self)@.cat.indexes.dom().contains(name@) ==> verdict(r) == Err::<(), ErrorView>(
                ErrorView::IndexNotFound(name@),
            ) && final(self)@ == old(self)@,
            old(self)@.cat.indexes.dom().contains(name@) ==> r is Ok && final(self)@ == (DbView {
                cat: CatalogView {
                    indexes: old(self)@.cat.indexes.insert(
                        name@,
                        IndexView { building: true, ..old(self)@.cat.indexes[name@] },
                    ),
                    ..old(self)@.cat
                },
                pending_backfills: old(self)@.pending_backfills.push(name@),
                ..old(self)@
            }),
    {
        let name_owned = name.to_owned();
        let ghost before = self@.cat.indexes;
        match take_def(&mut self.catalog.indexes, &name_owned) {
            None => {
                proof {
                    assert(self@.cat.indexes =~= before);
                }
                Err(EngineError::IndexNotFound(name_owned))
            },
            Some(mut def) => {
                def.building = true;
                let ghost dv = def@;
                put_def(&mut self.catalog.indexes, name_owned, def);
                proof {
                    assert(self@.cat.indexes =~= before.insert(name@, dv));
                }
                let ghost owed = self@.pending_backfills;
                self.pending_backfills.push(name.to_owned());
                proof {
                    assert(self@.pending_backfills =~= owed.push(name@));
                }
                Ok(())
            },
        }
    }

    /// Marks a vector index as building again and its backfill as owed.
    pub fn rebuild_vector_index(&mut self, name: &str) -> (r: Result<(), EngineError>)
        requires
            old(self).wf(),
        ensures
            final(self).wf(),
            !old(self)@.cat.vector_indexes.dom().contains(name@) ==> verdict(r) == Err::<
                (),
                ErrorView,
            >(ErrorView::IndexNotFound(name@)) && final(self)@ == old(self)@,
            old(self)@.cat.vector_indexes.dom().contains(name@) ==> r is Ok && final(self)@ == (
            DbView {
                building_vectors: old(self)@.building_vectors.insert(name@),
                pending_vector_backfills: old(self)@.pending_vector_backfills.push(name@),
                ..old(self)@
            }),
    {
        let name_owned = name.to_owned();
        if !has_def(&self.catalog.vector_indexes, &name_owned) {
            return Err(EngineError::IndexNotFound(name_owned));
        }
        self.building_vectors.add_name(name_owned);
        let ghost owed = self@.pending_vector_backfills;
        self.pending_vector_backfills.push(name.to_owned());
        proof {
            assert(self@.pending_vector_backfills =~= owed.push(name@));
        }
        Ok(())
    }
}

/// `ALTER TABLE`'s actions.
pub enum AlterAction {
    RenameTable { new_name: String },
    RenameColumn { from: String, to: String },
    SetOptions { options: Vec<(String, String)> },
}

/// Which change an `ALTER TABLE` makes.
#[derive(Clone, Copy, Debug, PartialEq, Eq, Structural)]
pub enum AlterKind {
    SetTimeseriesOptions,
    RenameTable,
    RenameColumn,
    SetTableOptions,
}

/// Which change an `ALTER TABLE` on `name` makes, or why it is refused.
pub open spec fn alter_kind(v: CatalogView, name: Seq<char>, action: AlterAction) -> Result<
    AlterKind,
    ErrorView,
> {
    if v.timeseries.dom().contains(name) {
        match action {
            AlterAction::SetOptions { .. } => Ok(AlterKind::SetTimeseriesOptions),
            _ => Err(
                ErrorView::Unsupported(
                    "timeseries tables support ALTER TABLE ... SET (retention/ooo) only"@,
                ),
            ),
        }
    } else if !v.tables.dom().contains(name) {
        Err(ErrorView::TableNotFound(name))
    } else {
        match action {
            AlterAction::RenameTable { .. } => Ok(AlterKind::RenameTable),
            AlterAction::RenameColumn { .. } => Ok(AlterKind::RenameColumn),
            AlterAction::SetOptions { .. } => Ok(AlterKind::SetTableOptions),
        }
    }
}

impl Database {
    /// Which change an `ALTER TABLE` on `name` makes.
    pub fn plan_alter_table(&self, name: &str, action: &AlterAction) -> (r: Result<
        AlterKind,
        EngineError,
    >)
        requires
            self.wf(),
        ensures
            verdict(r) == alter_kind(self@.cat, name@, *action),
    {
        let name_owned = name.to_owned();
        if has_def(&self.catalog.timeseries, &name_owned) {
            return match action {
                AlterAction::SetOptions { .. } => Ok(AlterKind::SetTimeseriesOptions),
                _ => Err(
                    unsupported(
                        "timeseries tables support ALTER TABLE ... SET (retention/ooo) only",
                    ),
                ),
            };
        }
        if !has_def(&self.catalog.tables, &name_owned) {
            return Err(EngineError::TableNotFound(name_owned));
        }
        match action {
            AlterAction::RenameTable { .. } => Ok(AlterKind::RenameTable),
            AlterAction::RenameColumn { .. } => Ok(AlterKind::RenameColumn),
            AlterAction::SetOptions { .. } => Ok(AlterKind::SetTableOptions),
        }
    }
}

/// While a placement change is open both placements stay known, and a second
/// change is refused until the first is finalized.
pub proof fn placement_change_is_refused_while_one_is_open(
    table: Seq<char>,
    def: TableView,
    o: (Seq<char>, Seq<char>),
)
    requires
        def.prev_placement is Some,
        o.0 == "nodes"@ || o.0 == "replication"@,
    ensures
        with_option(table, def, o) is Err,
        with_option(table, def, ("placement_finalized"@, o.1)) == Ok::<TableView, ErrorView>(
            TableView { prev_placement: None, ..def },
        ),
{
    reveal_strlit("nodes");
    reveal_strlit("replication");
    reveal_strlit("witness");
    reveal_strlit("ttl");
    reveal_strlit("placement_finalized");
    assert("placement_finalized"@.len() == 19);
    assert("nodes"@.len() == 5);
    assert("replication"@.len() == 11);
    assert("witness"@.len() == 7);
    assert("ttl"@.len() == 3);
}

/// Renaming a table and renaming it back restores every index definition,
/// where the new name was not in use by any of them.
pub proof fn rename_table_back(
    m: Map<Seq<char>, IndexView>,
    from: Seq<char>,
    to: Seq<char>,
)
    requires
        forall|n: Seq<char>| #[trigger] m.dom().contains(n) ==> m[n].table != to,
    ensures
        all_on_renamed_table::<IndexDef>(
            all_on_renamed_table::<IndexDef>(m, from, to),
            to,
            from,
        ) == m,
{
    let there = all_on_renamed_table::<IndexDef>(m, from, to);
    let back = all_on_renamed_table::<IndexDef>(there, to, from);
    assert forall|n: Seq<char>| #[trigger] m.dom().contains(n) implies back[n] == m[n] by {
        assert(m[n].table != to);
    }
    assert(back =~= m);
}

} // verus!
