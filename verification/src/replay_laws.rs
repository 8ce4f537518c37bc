//! A peer that replays a node's schema comes to have that schema.

use vstd::prelude::*;

use crate::catalog::empty_catalog;
use crate::catalog::Catalog;
use crate::catalog::CatalogView;
use crate::catalog::GeoIndexDef;
use crate::catalog::GeoIndexView;
use crate::catalog::IndexDef;
use crate::catalog::IndexView;
use crate::catalog::RollupView;
use crate::catalog::SchemaVersion;
use crate::catalog::SearchIndexDef;
use crate::catalog::TableDef;
use crate::catalog::TsTableDef;
use crate::catalog::TsTableView;
use crate::catalog::VectorIndexDef;
use crate::catalog::VectorIndexView;
use crate::database::DbView;
use crate::ddl_database::lemma_ascending_unique;
use crate::dispatch::SchemaFacts;
use crate::hlc::Hlc;
use crate::namespace::split_name;
use crate::replay::entombed;
use crate::replay::in_turn;
use crate::replay::key_of;
use crate::replay::late_window;
use crate::replay::lemma_items_made;
use crate::replay::lemma_key_of;
use crate::replay::lemma_object_at;
use crate::replay::lemma_rollups_made;
use crate::replay::live;
use crate::replay::made;
use crate::replay::made_series;
use crate::replay::made_table;
use crate::replay::makes_indexes;
use crate::replay::next_item;
use crate::replay::next_rollup;
use crate::replay::object_at;
use crate::replay::object_of;
use crate::replay::objects_of;
use crate::replay::replay;
use crate::replay::series_holds;
use crate::replay::settled;
use crate::replay::stand_for;
use crate::replay::Item;
use crate::replay::Kind;
use crate::replay::Object;
use crate::schema_sync::database_line;
use crate::schema_sync::flat;
use crate::schema_sync::geo_line;
use crate::schema_sync::index_line;
use crate::schema_sync::object_lines;
use crate::schema_sync::rollup_line;
use crate::schema_sync::rollup_lines;
use crate::schema_sync::search_line;
use crate::schema_sync::search_lines;
use crate::schema_sync::stamp_of;
use crate::schema_sync::table_line;
use crate::schema_sync::timeseries_lines;
use crate::schema_sync::tombstone_line;
use crate::schema_sync::trailing_lines;
use crate::schema_sync::ts_create_text;
use crate::schema_sync::vector_line;
use crate::schema_sync::LineView;
use crate::sorted_map::ascending;
use crate::sorted_map::entry_map;
use crate::sorted_map::holds_key;
use crate::sorted_map::lemma_entry_at;
use crate::sorted_map::SortKey;
use crate::statement::Statement;
use crate::text::lemma_seq_lt_irrefl;
use crate::text::lemma_seq_lt_total;
use crate::text::lemma_seq_lt_trans;
use crate::text::seq_lt;

verus! {

/// The items that `f` makes of each entry, one after the other.
pub open spec fn listed<D>(es: Seq<(String, D)>, f: spec_fn(Seq<char>, D) -> Seq<Item>) -> Seq<Item>
    decreases es.len(),
{
    if es.len() == 0 {
        Seq::empty()
    } else {
        listed(es.drop_last(), f) + f(es.last().0@, es.last().1)
    }
}

/// The items of a table's rollups.
pub open spec fn rollup_items(
    ts: Map<Seq<char>, TsTableView>,
    source: Seq<char>,
    rs: Seq<RollupView>,
) -> Seq<Item>
    decreases rs.len(),
{
    if rs.len() == 0 {
        Seq::empty()
    } else {
        let r = rs.last();
        rollup_items(ts, source, rs.drop_last()).push(
            Item::Rollup(r.name, source, r.bucket_ms, ts[r.name]),
        )
    }
}

/// The items of a time-series table: its own and those of its rollups. A
/// rollup has none of its own.
pub open spec fn series_items(
    ts: Map<Seq<char>, TsTableView>,
    n: Seq<char>,
    d: TsTableView,
) -> Seq<Item> {
    if d.rollup_of is Some {
        Seq::empty()
    } else {
        seq![Item::Series(n, d)] + rollup_items(ts, n, d.rollups)
    }
}

/// The item of a version: a drop for a tombstone, nothing for a live object.
pub open spec fn version_items(key: Seq<char>, v: SchemaVersion) -> Seq<Item> {
    match object_at(key) {
        Some(o) => if v.dropped {
            seq![Item::Drop(o)]
        } else {
            Seq::empty()
        },
        None => Seq::empty(),
    }
}

/// The items of the search indexes, each with its rendered options.
pub open spec fn search_items(es: Seq<(String, SearchIndexDef)>, clauses: Seq<String>) -> Seq<Item> {
    Seq::new(es.len(), |i: int| Item::Search(es[i].0@, es[i].1@, clauses[i]@))
}

/// The items of a schema in the order of its lines.
pub open spec fn items_of(c: Catalog, clauses: Seq<String>) -> Seq<Item> {
    let ts = c@.timeseries;
    listed(c.databases.names.entries@, |n: Seq<char>, _u: ()| seq![Item::Database(n)]) + listed(
        c.tables.entries@,
        |n: Seq<char>, d: TableDef| seq![Item::Table(n, d@)],
    ) + listed(
        c.timeseries.entries@,
        |n: Seq<char>, d: TsTableDef| series_items(ts, n, d@),
    ) + listed(c.indexes.entries@, |n: Seq<char>, d: IndexDef| seq![Item::Index(n, d@)]) + listed(
        c.vector_indexes.entries@,
        |n: Seq<char>, d: VectorIndexDef| seq![Item::Vector(n, d@)],
    ) + search_items(c.search_indexes.entries@, clauses) + listed(
        c.geo_indexes.entries@,
        |n: Seq<char>, d: GeoIndexDef| seq![Item::Geo(n, d@)],
    ) + listed(
        c.schema_versions.entries@,
        |k: Seq<char>, v: SchemaVersion| version_items(k, v),
    )
}

/// Items in turn behind items in turn.
proof fn lemma_turns(c: CatalogView, done: Set<Object>, a: Seq<Item>, b: Seq<Item>)
    requires
        in_turn(c, done, a),
        in_turn(c, done.union(objects_of(a)), b),
    ensures
        in_turn(c, done, a + b),
        objects_of(a + b) == objects_of(a).union(objects_of(b)),
        done.union(objects_of(a + b)) == done.union(objects_of(a)).union(objects_of(b)),
    decreases b.len(),
{
    if b.len() == 0 {
        assert(a + b =~= a);
        assert(objects_of(a).union(objects_of(b)) =~= objects_of(a));
    } else {
        let init = b.drop_last();
        lemma_turns(c, done, a, init);
        assert((a + b).drop_last() =~= a + init);
        assert((a + b).last() == b.last());
        assert(done.union(objects_of(a)).union(objects_of(init)) =~= done.union(
            objects_of(a + init),
        ));
        assert(objects_of(a + b) =~= objects_of(a).union(objects_of(b)));
    }
    assert(done.union(objects_of(a + b)) =~= done.union(objects_of(a)).union(objects_of(b)));
}

/// Whether an entry's item, if it makes one, comes next.
pub open spec fn entry_next<D>(
    c: CatalogView,
    done: Set<Object>,
    f: spec_fn(Seq<char>, D) -> Seq<Item>,
    id: spec_fn(Seq<char>) -> Object,
    e: (String, D),
) -> bool {
    let xs = f(e.0@, e.1);
    xs.len() == 0 || (xs.len() == 1 && object_of(xs[0]) == id(e.0@) && next_item(c, done, xs[0])
        && !(xs[0] is Series) && !(xs[0] is Rollup))
}

/// Whether an entry makes the item of an object.
pub open spec fn makes<D>(
    f: spec_fn(Seq<char>, D) -> Seq<Item>,
    id: spec_fn(Seq<char>) -> Object,
    e: (String, D),
    o: Object,
) -> bool {
    f(e.0@, e.1).len() > 0 && id(e.0@) == o
}

/// Entries that make one item each at most, of objects that differ, come in
/// turn.
proof fn lemma_listed_in_turn<D>(
    c: CatalogView,
    done: Set<Object>,
    es: Seq<(String, D)>,
    f: spec_fn(Seq<char>, D) -> Seq<Item>,
    id: spec_fn(Seq<char>) -> Object,
)
    requires
        forall|i: int| 0 <= i < es.len() ==> entry_next(c, done, f, id, #[trigger] es[i]),
        forall|i: int, j: int|
            0 <= i < j < es.len() ==> id((#[trigger] es[i]).0@) != id((#[trigger] es[j]).0@)
                || f(es[i].0@, es[i].1).len() == 0 || f(es[j].0@, es[j].1).len() == 0,
    ensures
        in_turn(c, done, listed(es, f)),
        forall|o: Object| #[trigger]
            objects_of(listed(es, f)).contains(o) <==> exists|i: int|
                0 <= i < es.len() && makes(f, id, #[trigger] es[i], o),
    decreases es.len(),
{
    if es.len() > 0 {
        let init = es.drop_last();
        let n = es.len() - 1;
        assert forall|i: int| 0 <= i < init.len() implies entry_next(
            c,
            done,
            f,
            id,
            #[trigger] init[i],
        ) by {
            assert(init[i] == es[i]);
        }
        lemma_listed_in_turn(c, done, init, f, id);
        let before = listed(init, f);
        let xs = f(es[n].0@, es[n].1);
        assert(entry_next(c, done, f, id, es[n]));
        assert(es.last() == es[n]);
        if xs.len() == 0 {
            assert(listed(es, f) =~= before);
        } else {
            assert(listed(es, f) =~= before.push(xs[0]));
            assert(listed(es, f).drop_last() =~= before);
            let o = object_of(xs[0]);
            if objects_of(before).contains(o) {
                let i = choose|i: int| 0 <= i < init.len() && makes(f, id, #[trigger] init[i], o);
                assert(init[i] == es[i]);
                assert(id(es[i].0@) == id(es[n].0@));
            }
            assert(next_item(c, done.union(objects_of(before)), xs[0]));
        }
        assert forall|o: Object| #[trigger]
            objects_of(listed(es, f)).contains(o) <==> exists|i: int|
                0 <= i < es.len() && makes(f, id, #[trigger] es[i], o) by {
            if objects_of(before).contains(o) {
                let i = choose|i: int| 0 <= i < init.len() && makes(f, id, #[trigger] init[i], o);
                assert(makes(f, id, es[i], o));
            }
            if xs.len() > 0 && o == object_of(xs[0]) {
                assert(makes(f, id, es[n], o));
            }
            if exists|i: int| 0 <= i < es.len() && makes(f, id, #[trigger] es[i], o) {
                let i = choose|i: int| 0 <= i < es.len() && makes(f, id, #[trigger] es[i], o);
                if i < n {
                    assert(makes(f, id, init[i], o));
                }
            }
        }
    }
}

/// Whether an object is one of the first rollups of a list.
pub open spec fn rollup_among(rs: Seq<RollupView>, j: int, o: Object) -> bool {
    o.0 == Kind::Table && exists|i: int| 0 <= i < j && (#[trigger] rs[i]).name == o.1
}

/// The first rollups of a list are those before the next one, and it.
proof fn lemma_rollup_among(rs: Seq<RollupView>, j: int, o: Object)
    requires
        0 < j <= rs.len(),
    ensures
        rollup_among(rs, j, o) <==> rollup_among(rs, j - 1, o) || o == (
            Kind::Table,
            rs[j - 1].name,
        ),
{
    if o == (Kind::Table, rs[j - 1].name) {
        assert(rs[j - 1].name == o.1);
    }
    if rollup_among(rs, j - 1, o) {
        let i = choose|i: int| 0 <= i < j - 1 && (#[trigger] rs[i]).name == o.1;
        assert(rs[i].name == o.1);
    }
}

/// The rollups of a table that is made come in turn.
proof fn lemma_rollups_in_turn(c: CatalogView, done: Set<Object>, n: Seq<char>, j: int)
    requires
        series_holds(c.timeseries, n),
        c.timeseries[n].rollup_of is None,
        0 <= j <= c.timeseries[n].rollups.len(),
        done.contains((Kind::Table, n)),
        forall|i: int|
            0 <= i < c.timeseries[n].rollups.len() ==> !done.contains(
                (Kind::Table, (#[trigger] c.timeseries[n].rollups[i]).name),
            ),
    ensures
        ({
            let rs = c.timeseries[n].rollups;
            let xs = rollup_items(c.timeseries, n, rs.take(j));
            &&& in_turn(c, done, xs)
            &&& forall|o: Object| #[trigger]
                objects_of(xs).contains(o) <==> rollup_among(rs, j, o)
        }),
    decreases j,
{
    let ts = c.timeseries;
    let rs = ts[n].rollups;
    if j > 0 {
        lemma_rollups_in_turn(c, done, n, j - 1);
        assert(rs.take(j).drop_last() =~= rs.take(j - 1));
        let r = rs[j - 1];
        assert(rs.take(j).last() == r);
        let before = rollup_items(ts, n, rs.take(j - 1));
        let x = Item::Rollup(r.name, n, r.bucket_ms, ts[r.name]);
        let xs = rollup_items(ts, n, rs.take(j));
        assert(xs == before.push(x));
        assert(xs.drop_last() =~= before);
        let k = done.union(objects_of(before));
        lemma_next_rollup(rs, done, k, j - 1);
        assert(!k.contains((Kind::Table, r.name)));
        assert(next_item(c, k, x));
        assert forall|o: Object| #[trigger]
            objects_of(xs).contains(o) <==> rollup_among(rs, j, o) by {
            lemma_rollup_among(rs, j, o);
        }
    } else {
        assert(rs.take(0) =~= Seq::<RollupView>::empty());
    }
}

/// Behind the first rollups of a list the next one is to be made.
proof fn lemma_next_rollup(rs: Seq<RollupView>, done: Set<Object>, k: Set<Object>, j: int)
    requires
        0 <= j < rs.len(),
        forall|i: int| 0 <= i < rs.len() ==> !done.contains((Kind::Table, (#[trigger] rs[i]).name)),
        forall|a: int, b: int|
            0 <= a < b < rs.len() ==> (#[trigger] rs[a]).name != (#[trigger] rs[b]).name,
        forall|o: Object| #[trigger] k.contains(o) <==> done.contains(o) || rollup_among(rs, j, o),
    ensures
        next_rollup(rs, k, rs[j]),
        !k.contains((Kind::Table, rs[j].name)),
{
    assert forall|i: int| 0 <= i < rs.len() implies (k.contains(
        (Kind::Table, (#[trigger] rs[i]).name),
    ) <==> i < j) by {
        let o = (Kind::Table, rs[i].name);
        if i < j {
            assert(rollup_among(rs, j, o));
        } else if rollup_among(rs, j, o) {
            let m = choose|m: int| 0 <= m < j && (#[trigger] rs[m]).name == o.1;
            assert(rs[m].name != rs[i].name);
        }
    }
}

/// The table that a time-series table is made along with: its source for a
/// rollup, and itself else.
pub open spec fn owner(ts: Map<Seq<char>, TsTableView>, n: Seq<char>) -> Seq<char> {
    match ts[n].rollup_of {
        Some(s) => s,
        None => n,
    }
}

/// Whether an object is a time-series table made along with one of the first
/// entries.
pub open spec fn series_among(
    ts: Map<Seq<char>, TsTableView>,
    es: Seq<(String, TsTableDef)>,
    o: Object,
) -> bool {
    o.0 == Kind::Table && ts.dom().contains(o.1) && exists|j: int|
        0 <= j < es.len() && (#[trigger] es[j]).0@ == owner(ts, o.1)
}

/// The time-series tables come in turn.
proof fn lemma_series_in_turn(c: CatalogView, done: Set<Object>, es: Seq<(String, TsTableDef)>)
    requires
        settled(c),
        forall|i: int|
            0 <= i < es.len() ==> c.timeseries.dom().contains((#[trigger] es[i]).0@)
                && c.timeseries[es[i].0@] == es[i].1@,
        forall|i: int, j: int|
            0 <= i < j < es.len() ==> (#[trigger] es[i]).0@ != (#[trigger] es[j]).0@,
        forall|n: Seq<char>| #[trigger]
            c.timeseries.dom().contains(n) ==> !done.contains((Kind::Table, n)),
    ensures
        ({
            let ts = c.timeseries;
            let xs = listed(es, |n: Seq<char>, d: TsTableDef| series_items(ts, n, d@));
            &&& in_turn(c, done, xs)
            &&& forall|o: Object| #[trigger]
                objects_of(xs).contains(o) <==> series_among(ts, es, o)
        }),
    decreases es.len(),
{
    let ts = c.timeseries;
    let f = |n: Seq<char>, d: TsTableDef| series_items(ts, n, d@);
    if es.len() > 0 {
        let init = es.drop_last();
        let last = es.len() - 1;
        assert forall|i: int| 0 <= i < init.len() implies ts.dom().contains(
            (#[trigger] init[i]).0@,
        ) && ts[init[i].0@] == init[i].1@ by {
            assert(init[i] == es[i]);
        }
        assert forall|i: int, j: int| 0 <= i < j < init.len() implies (#[trigger] init[i]).0@ != (
        #[trigger] init[j]).0@ by {
            assert(es[i].0@ != es[j].0@);
        }
        lemma_series_in_turn(c, done, init);
        let n = es[last].0@;
        let before = listed(init, f);
        assert(es.last() == es[last]);
        assert(series_holds(ts, n));
        let d = ts[n];
        let k = done.union(objects_of(before));
        assert forall|m: Seq<char>| ts.dom().contains(m) && owner(ts, m) == n implies !k.contains(
            (Kind::Table, m),
        ) by {
            if objects_of(before).contains((Kind::Table, m)) {
                assert(series_among(ts, init, (Kind::Table, m)));
                let j = choose|j: int| 0 <= j < init.len() && (#[trigger] init[j]).0@ == owner(ts, m);
                assert(es[j].0@ != es[last].0@);
            }
        }
        if d.rollup_of is Some {
            assert(listed(es, f) =~= before);
            assert forall|o: Object| #[trigger]
                series_among(ts, es, o) <==> series_among(ts, init, o) by {
                if series_among(ts, es, o) {
                    assert(series_holds(ts, o.1));
                    let j = choose|j: int| 0 <= j < es.len() && (#[trigger] es[j]).0@ == owner(
                        ts,
                        o.1,
                    );
                    assert(j != last);
                    assert(init[j] == es[j]);
                }
                if series_among(ts, init, o) {
                    let j = choose|j: int| 0 <= j < init.len() && (#[trigger] init[j]).0@ == owner(
                        ts,
                        o.1,
                    );
                    assert(init[j] == es[j]);
                }
            }
        } else {
            let own = seq![Item::Series(n, d)];
            let rest = rollup_items(ts, n, d.rollups);
            assert(owner(ts, n) == n);
            assert(!k.contains((Kind::Table, n)));
            assert(own.drop_last() =~= Seq::<Item>::empty());
            assert(k.union(objects_of(own.drop_last())) =~= k);
            assert(next_item(c, k, own.last()));
            assert(in_turn(c, k, own.drop_last()));
            assert(in_turn(c, k, own));
            assert(objects_of(own) =~= Set::<Object>::empty().insert((Kind::Table, n)));
            let with = k.union(objects_of(own));
            assert forall|i: int| 0 <= i < d.rollups.len() implies !with.contains(
                (Kind::Table, (#[trigger] d.rollups[i]).name),
            ) by {
                assert(owner(ts, d.rollups[i].name) == n);
            }
            lemma_rollups_in_turn(c, with, n, d.rollups.len() as int);
            assert(d.rollups.take(d.rollups.len() as int) =~= d.rollups);
            lemma_turns(c, k, own, rest);
            lemma_turns(c, done, before, own + rest);
            assert(listed(es, f) =~= before + (own + rest));
            assert forall|o: Object| #[trigger]
                objects_of(listed(es, f)).contains(o) <==> series_among(ts, es, o) by {
                if objects_of(before).contains(o) {
                    let j = choose|j: int| 0 <= j < init.len() && (#[trigger] init[j]).0@ == owner(
                        ts,
                        o.1,
                    );
                    assert(init[j] == es[j]);
                }
                if o == (Kind::Table, n) {
                    assert(es[last].0@ == owner(ts, n));
                }
                if objects_of(rest).contains(o) {
                    let i = choose|i: int|
                        0 <= i < d.rollups.len() && (#[trigger] d.rollups[i]).name == o.1;
                    assert(es[last].0@ == owner(ts, d.rollups[i].name));
                }
                if series_among(ts, es, o) {
                    let j = choose|j: int| 0 <= j < es.len() && (#[trigger] es[j]).0@ == owner(
                        ts,
                        o.1,
                    );
                    assert(series_holds(ts, o.1));
                    if j < last {
                        assert(init[j] == es[j]);
                        assert(series_among(ts, init, o));
                    } else if o.1 != n {
                        assert(ts[o.1].rollup_of == Some(n));
                        let i = choose|i: int|
                            0 <= i < ts[n].rollups.len() && (#[trigger] ts[n].rollups[i]).name
                                == o.1;
                        assert(rollup_among(d.rollups, d.rollups.len() as int, o));
                        assert(objects_of(rest).contains(o));
                    }
                }
            }
        }
    } else {
        assert(listed(es, f) =~= Seq::<Item>::empty());
    }
}

/// Whether an entry makes one item, of an object of this kind, that comes
/// next.
pub open spec fn kind_next<D>(
    c: CatalogView,
    done: Set<Object>,
    f: spec_fn(Seq<char>, D) -> Seq<Item>,
    kind: Kind,
    e: (String, D),
) -> bool {
    let xs = f(e.0@, e.1);
    xs.len() == 1 && object_of(xs[0]) == (kind, e.0@) && next_item(c, done, xs[0]) && !(
    xs[0] is Series) && !(xs[0] is Rollup)
}

/// The objects of one kind come in turn.
proof fn lemma_kind_in_turn<D>(
    c: CatalogView,
    done: Set<Object>,
    es: Seq<(String, D)>,
    f: spec_fn(Seq<char>, D) -> Seq<Item>,
    kind: Kind,
)
    requires
        ascending(es),
        forall|i: int| 0 <= i < es.len() ==> kind_next(c, done, f, kind, #[trigger] es[i]),
    ensures
        in_turn(c, done, listed(es, f)),
        forall|o: Object| #[trigger]
            objects_of(listed(es, f)).contains(o) <==> o.0 == kind && holds_key(es, o.1),
{
    let id = |n: Seq<char>| (kind, n);
    assert forall|i: int| 0 <= i < es.len() implies entry_next(c, done, f, id, #[trigger] es[i]) by {
        assert(kind_next(c, done, f, kind, es[i]));
    }
    assert forall|i: int, j: int| 0 <= i < j < es.len() implies id((#[trigger] es[i]).0@) != id(
        (#[trigger] es[j]).0@,
    ) by {
        assert(<String as SortKey>::below(es[i].0.model(), es[j].0.model()));
        lemma_seq_lt_irrefl(es[i].0@);
    }
    lemma_listed_in_turn(c, done, es, f, id);
    assert forall|o: Object| #[trigger]
        objects_of(listed(es, f)).contains(o) <==> o.0 == kind && holds_key(es, o.1) by {
        if objects_of(listed(es, f)).contains(o) {
            let i = choose|i: int| 0 <= i < es.len() && makes(f, id, #[trigger] es[i], o);
            assert(es[i].0.model() == o.1);
        }
        if o.0 == kind && holds_key(es, o.1) {
            let i = choose|i: int| 0 <= i < es.len() && (#[trigger] es[i]).0.model() == o.1;
            assert(kind_next(c, done, f, kind, es[i]));
            assert(makes(f, id, es[i], o));
        }
    }
}

/// The objects whose items are behind one after so many of the parts of a
/// schema.
pub open spec fn phase(c: CatalogView, p: int, o: Object) -> bool {
    ||| p >= 1 && o.0 == Kind::Database && c.databases.contains(o.1)
    ||| p >= 2 && o.0 == Kind::Table && c.tables.dom().contains(o.1)
    ||| p >= 3 && o.0 == Kind::Table && c.timeseries.dom().contains(o.1)
    ||| p >= 4 && o.0 == Kind::Index && c.indexes.dom().contains(o.1)
    ||| p >= 5 && o.0 == Kind::Vector && c.vector_indexes.dom().contains(o.1)
    ||| p >= 6 && o.0 == Kind::Search && c.search_indexes.dom().contains(o.1)
    ||| p >= 7 && o.0 == Kind::Geo && c.geo_indexes.dom().contains(o.1)
    ||| p >= 8 && entombed(c, o)
}

proof fn lemma_databases_in_turn(c: Catalog, done: Set<Object>)
    requires
        c.wf(),
        settled(c@),
        forall|o: Object| #[trigger] done.contains(o) <==> phase(c@, 0, o),
    ensures
        ({
            let xs = listed(
                c.databases.names.entries@,
                |n: Seq<char>, _u: ()| seq![Item::Database(n)],
            );
            &&& in_turn(c@, done, xs)
            &&& forall|o: Object| #[trigger]
                done.union(objects_of(xs)).contains(o) <==> phase(c@, 1, o)
        }),
{
    let es = c.databases.names.entries@;
    let f = |n: Seq<char>, _u: ()| seq![Item::Database(n)];
    assert forall|i: int| 0 <= i < es.len() implies kind_next(
        c@,
        done,
        f,
        Kind::Database,
        #[trigger] es[i],
    ) by {
        lemma_entry_at(es, i);
        assert(c@.databases.contains(es[i].0@));
        assert(next_item(c@, done, f(es[i].0@, es[i].1)[0]));
    }
    lemma_kind_in_turn(c@, done, es, f, Kind::Database);
}

proof fn lemma_tables_in_turn(c: Catalog, done: Set<Object>)
    requires
        c.wf(),
        settled(c@),
        forall|o: Object| #[trigger] done.contains(o) <==> phase(c@, 1, o),
    ensures
        ({
            let xs = listed(
                c.tables.entries@,
                |n: Seq<char>, d: TableDef| seq![Item::Table(n, d@)],
            );
            &&& in_turn(c@, done, xs)
            &&& forall|o: Object| #[trigger]
                done.union(objects_of(xs)).contains(o) <==> phase(c@, 2, o)
        }),
{
    let es = c.tables.entries@;
    let f = |n: Seq<char>, d: TableDef| seq![Item::Table(n, d@)];
    assert forall|i: int| 0 <= i < es.len() implies kind_next(
        c@,
        done,
        f,
        Kind::Table,
        #[trigger] es[i],
    ) by {
        lemma_entry_at(es, i);
        let n = es[i].0@;
        let x = f(n, es[i].1)[0];
        assert(c@.tables.dom().contains(n));
        assert(next_item(c@, done, x));
    }
    lemma_kind_in_turn(c@, done, es, f, Kind::Table);
}

proof fn lemma_all_series_in_turn(c: Catalog, done: Set<Object>)
    requires
        c.wf(),
        settled(c@),
        forall|o: Object| #[trigger] done.contains(o) <==> phase(c@, 2, o),
    ensures
        ({
            let ts = c@.timeseries;
            let xs = listed(
                c.timeseries.entries@,
                |n: Seq<char>, d: TsTableDef| series_items(ts, n, d@),
            );
            &&& in_turn(c@, done, xs)
            &&& forall|o: Object| #[trigger]
                done.union(objects_of(xs)).contains(o) <==> phase(c@, 3, o)
        }),
{
    let es = c.timeseries.entries@;
    let ts = c@.timeseries;
    assert forall|i: int| 0 <= i < es.len() implies ts.dom().contains((#[trigger] es[i]).0@)
        && ts[es[i].0@] == es[i].1@ by {
        lemma_entry_at(es, i);
    }
    assert forall|i: int, j: int| 0 <= i < j < es.len() implies (#[trigger] es[i]).0@ != (
    #[trigger] es[j]).0@ by {
        assert(<String as SortKey>::below(es[i].0.model(), es[j].0.model()));
        lemma_seq_lt_irrefl(es[i].0@);
    }
    assert forall|n: Seq<char>| #[trigger] ts.dom().contains(n) implies !done.contains(
        (Kind::Table, n),
    ) by {
        if c@.tables.dom().contains(n) {
            assert(!ts.dom().contains(n));
        }
    }
    lemma_series_in_turn(c@, done, es);
    let xs = listed(es, |n: Seq<char>, d: TsTableDef| series_items(ts, n, d@));
    assert forall|o: Object| #[trigger]
        done.union(objects_of(xs)).contains(o) <==> phase(c@, 3, o) by {
        if o.0 == Kind::Table && ts.dom().contains(o.1) {
            assert(series_holds(ts, o.1));
            let m = owner(ts, o.1);
            assert(ts.dom().contains(m));
            assert(holds_key(es, m));
            let j = choose|j: int| 0 <= j < es.len() && (#[trigger] es[j]).0.model() == m;
            assert(es[j].0@ == m);
            assert(series_among(ts, es, o));
        }
    }
}

proof fn lemma_indexes_in_turn(c: Catalog, done: Set<Object>)
    requires
        c.wf(),
        settled(c@),
        forall|o: Object| #[trigger] done.contains(o) <==> phase(c@, 3, o),
    ensures
        ({
            let xs = listed(
                c.indexes.entries@,
                |n: Seq<char>, d: IndexDef| seq![Item::Index(n, d@)],
            );
            &&& in_turn(c@, done, xs)
            &&& forall|o: Object| #[trigger]
                done.union(objects_of(xs)).contains(o) <==> phase(c@, 4, o)
        }),
{
    let es = c.indexes.entries@;
    let f = |n: Seq<char>, d: IndexDef| seq![Item::Index(n, d@)];
    assert forall|i: int| 0 <= i < es.len() implies kind_next(
        c@,
        done,
        f,
        Kind::Index,
        #[trigger] es[i],
    ) by {
        lemma_entry_at(es, i);
        let n = es[i].0@;
        let x = f(n, es[i].1)[0];
        assert(c@.indexes.dom().contains(n));
        assert(next_item(c@, done, x));
    }
    lemma_kind_in_turn(c@, done, es, f, Kind::Index);
}

proof fn lemma_vectors_in_turn(c: Catalog, done: Set<Object>)
    requires
        c.wf(),
        settled(c@),
        forall|o: Object| #[trigger] done.contains(o) <==> phase(c@, 4, o),
    ensures
        ({
            let xs = listed(
                c.vector_indexes.entries@,
                |n: Seq<char>, d: VectorIndexDef| seq![Item::Vector(n, d@)],
            );
            &&& in_turn(c@, done, xs)
            &&& forall|o: Object| #[trigger]
                done.union(objects_of(xs)).contains(o) <==> phase(c@, 5, o)
        }),
{
    let es = c.vector_indexes.entries@;
    let f = |n: Seq<char>, d: VectorIndexDef| seq![Item::Vector(n, d@)];
    assert forall|i: int| 0 <= i < es.len() implies kind_next(
        c@,
        done,
        f,
        Kind::Vector,
        #[trigger] es[i],
    ) by {
        lemma_entry_at(es, i);
        let n = es[i].0@;
        let x = f(n, es[i].1)[0];
        assert(c@.vector_indexes.dom().contains(n));
        assert(next_item(c@, done, x));
    }
    lemma_kind_in_turn(c@, done, es, f, Kind::Vector);
}

proof fn lemma_searches_in_turn(
    c: CatalogView,
    done: Set<Object>,
    es: Seq<(String, SearchIndexDef)>,
    clauses: Seq<String>,
)
    requires
        forall|i: int|
            0 <= i < es.len() ==> next_item(
                c,
                done,
                Item::Search((#[trigger] es[i]).0@, es[i].1@, clauses[i]@),
            ),
        forall|i: int, j: int|
            0 <= i < j < es.len() ==> (#[trigger] es[i]).0@ != (#[trigger] es[j]).0@,
    ensures
        in_turn(c, done, search_items(es, clauses)),
        forall|o: Object| #[trigger]
            objects_of(search_items(es, clauses)).contains(o) <==> o.0 == Kind::Search && holds_key(
                es,
                o.1,
            ),
    decreases es.len(),
{
    let xs = search_items(es, clauses);
    if es.len() > 0 {
        let init = es.drop_last();
        let n = es.len() - 1;
        assert forall|i: int| 0 <= i < init.len() implies next_item(
            c,
            done,
            Item::Search((#[trigger] init[i]).0@, init[i].1@, clauses[i]@),
        ) by {
            assert(init[i] == es[i]);
        }
        assert forall|i: int, j: int| 0 <= i < j < init.len() implies (#[trigger] init[i]).0@ != (
        #[trigger] init[j]).0@ by {
            assert(es[i].0@ != es[j].0@);
        }
        lemma_searches_in_turn(c, done, init, clauses);
        let before = search_items(init, clauses);
        assert(xs.drop_last() =~= before);
        let x = Item::Search(es[n].0@, es[n].1@, clauses[n]@);
        assert(xs.last() == x);
        assert(next_item(c, done, x));
        if objects_of(before).contains((Kind::Search, es[n].0@)) {
            let i = choose|i: int|
                0 <= i < init.len() && (#[trigger] init[i]).0.model() == es[n].0@;
            assert(es[i].0@ != es[n].0@);
        }
        assert(next_item(c, done.union(objects_of(before)), x));
        assert forall|o: Object| #[trigger]
            objects_of(xs).contains(o) <==> o.0 == Kind::Search && holds_key(es, o.1) by {
            if objects_of(before).contains(o) {
                let i = choose|i: int| 0 <= i < init.len() && (#[trigger] init[i]).0.model() == o.1;
                assert(es[i].0.model() == o.1);
            }
            if o == (Kind::Search, es[n].0@) {
                assert(es[n].0.model() == o.1);
            }
            if holds_key(es, o.1) {
                let i = choose|i: int| 0 <= i < es.len() && (#[trigger] es[i]).0.model() == o.1;
                if i < n {
                    assert(init[i].0.model() == o.1);
                }
            }
        }
    } else {
        assert(xs =~= Seq::<Item>::empty());
    }
}

proof fn lemma_all_searches_in_turn(c: Catalog, clauses: Seq<String>, done: Set<Object>)
    requires
        c.wf(),
        settled(c@),
        forall|o: Object| #[trigger] done.contains(o) <==> phase(c@, 5, o),
    ensures
        ({
            let xs = search_items(c.search_indexes.entries@, clauses);
            &&& in_turn(c@, done, xs)
            &&& forall|o: Object| #[trigger]
                done.union(objects_of(xs)).contains(o) <==> phase(c@, 6, o)
        }),
{
    let es = c.search_indexes.entries@;
    assert forall|i: int| 0 <= i < es.len() implies next_item(
        c@,
        done,
        Item::Search((#[trigger] es[i]).0@, es[i].1@, clauses[i]@),
    ) by {
        lemma_entry_at(es, i);
        assert(c@.search_indexes.dom().contains(es[i].0@));
    }
    assert forall|i: int, j: int| 0 <= i < j < es.len() implies (#[trigger] es[i]).0@ != (
    #[trigger] es[j]).0@ by {
        assert(<String as SortKey>::below(es[i].0.model(), es[j].0.model()));
        lemma_seq_lt_irrefl(es[i].0@);
    }
    lemma_searches_in_turn(c@, done, es, clauses);
}

proof fn lemma_geos_in_turn(c: Catalog, done: Set<Object>)
    requires
        c.wf(),
        settled(c@),
        forall|o: Object| #[trigger] done.contains(o) <==> phase(c@, 6, o),
    ensures
        ({
            let xs = listed(
                c.geo_indexes.entries@,
                |n: Seq<char>, d: GeoIndexDef| seq![Item::Geo(n, d@)],
            );
            &&& in_turn(c@, done, xs)
            &&& forall|o: Object| #[trigger]
                done.union(objects_of(xs)).contains(o) <==> phase(c@, 7, o)
        }),
{
    let es = c.geo_indexes.entries@;
    let f = |n: Seq<char>, d: GeoIndexDef| seq![Item::Geo(n, d@)];
    assert forall|i: int| 0 <= i < es.len() implies kind_next(
        c@,
        done,
        f,
        Kind::Geo,
        #[trigger] es[i],
    ) by {
        lemma_entry_at(es, i);
        let n = es[i].0@;
        let x = f(n, es[i].1)[0];
        assert(c@.geo_indexes.dom().contains(n));
        assert(next_item(c@, done, x));
    }
    lemma_kind_in_turn(c@, done, es, f, Kind::Geo);
}

proof fn lemma_drops_in_turn(c: Catalog, done: Set<Object>)
    requires
        c.wf(),
        settled(c@),
        forall|o: Object| #[trigger] done.contains(o) <==> phase(c@, 7, o),
    ensures
        ({
            let xs = listed(
                c.schema_versions.entries@,
                |k: Seq<char>, v: SchemaVersion| version_items(k, v),
            );
            &&& in_turn(c@, done, xs)
            &&& forall|o: Object| #[trigger]
                done.union(objects_of(xs)).contains(o) <==> phase(c@, 8, o)
        }),
{
    let es = c.schema_versions.entries@;
    let f = |k: Seq<char>, v: SchemaVersion| version_items(k, v);
    let id = |k: Seq<char>| object_at(k)->0;
    assert forall|i: int| 0 <= i < es.len() implies entry_next(
        c@,
        done,
        f,
        id,
        #[trigger] es[i],
    ) by {
        lemma_entry_at(es, i);
        let k = es[i].0@;
        lemma_key_of(k);
        assert(c@.versions.dom().contains(k));
        assert(c@.versions[k] == es[i].1);
    }
    assert forall|i: int, j: int| 0 <= i < j < es.len() implies id((#[trigger] es[i]).0@) != id(
        (#[trigger] es[j]).0@,
    ) || f(es[i].0@, es[i].1).len() == 0 || f(es[j].0@, es[j].1).len() == 0 by {
        assert(<String as SortKey>::below(es[i].0.model(), es[j].0.model()));
        lemma_seq_lt_irrefl(es[i].0@);
        lemma_key_of(es[i].0@);
        lemma_key_of(es[j].0@);
    }
    lemma_listed_in_turn(c@, done, es, f, id);
    let xs = listed(es, f);
    assert forall|o: Object| #[trigger]
        done.union(objects_of(xs)).contains(o) <==> phase(c@, 8, o) by {
        if objects_of(xs).contains(o) {
            let i = choose|i: int| 0 <= i < es.len() && makes(f, id, #[trigger] es[i], o);
            lemma_entry_at(es, i);
            lemma_key_of(es[i].0@);
            assert(key_of(o) == es[i].0@);
        }
        if entombed(c@, o) {
            lemma_object_at(o);
            let k = key_of(o);
            assert(holds_key(es, k));
            let i = choose|i: int| 0 <= i < es.len() && (#[trigger] es[i]).0.model() == k;
            lemma_entry_at(es, i);
            assert(makes(f, id, es[i], o));
        }
    }
}

/// The items of a schema come in turn, and are of all that is live or has a
/// tombstone.
proof fn lemma_items_in_turn(c: Catalog, clauses: Seq<String>)
    requires
        c.wf(),
        settled(c@),
    ensures
        in_turn(c@, Set::empty(), items_of(c, clauses)),
        forall|o: Object| #[trigger]
            objects_of(items_of(c, clauses)).contains(o) <==> live(c@, o) || entombed(c@, o),
{
    let ts = c@.timeseries;
    let v = c@;
    let none = Set::<Object>::empty();
    let a = listed(c.databases.names.entries@, |n: Seq<char>, _u: ()| seq![Item::Database(n)]);
    let b = listed(c.tables.entries@, |n: Seq<char>, d: TableDef| seq![Item::Table(n, d@)]);
    let d = listed(
        c.timeseries.entries@,
        |n: Seq<char>, d: TsTableDef| series_items(ts, n, d@),
    );
    let e = listed(c.indexes.entries@, |n: Seq<char>, d: IndexDef| seq![Item::Index(n, d@)]);
    let f = listed(
        c.vector_indexes.entries@,
        |n: Seq<char>, d: VectorIndexDef| seq![Item::Vector(n, d@)],
    );
    let g = search_items(c.search_indexes.entries@, clauses);
    let h = listed(
        c.geo_indexes.entries@,
        |n: Seq<char>, d: GeoIndexDef| seq![Item::Geo(n, d@)],
    );
    let i = listed(
        c.schema_versions.entries@,
        |k: Seq<char>, v: SchemaVersion| version_items(k, v),
    );
    lemma_databases_in_turn(c, none);
    lemma_tables_in_turn(c, none.union(objects_of(a)));
    lemma_turns(v, none, a, b);
    lemma_all_series_in_turn(c, none.union(objects_of(a + b)));
    lemma_turns(v, none, a + b, d);
    lemma_indexes_in_turn(c, none.union(objects_of(a + b + d)));
    lemma_turns(v, none, a + b + d, e);
    lemma_vectors_in_turn(c, none.union(objects_of(a + b + d + e)));
    lemma_turns(v, none, a + b + d + e, f);
    lemma_all_searches_in_turn(c, clauses, none.union(objects_of(a + b + d + e + f)));
    lemma_turns(v, none, a + b + d + e + f, g);
    lemma_geos_in_turn(c, none.union(objects_of(a + b + d + e + f + g)));
    lemma_turns(v, none, a + b + d + e + f + g, h);
    lemma_drops_in_turn(c, none.union(objects_of(a + b + d + e + f + g + h)));
    lemma_turns(v, none, a + b + d + e + f + g + h, i);
    let all = a + b + d + e + f + g + h + i;
    assert(items_of(c, clauses) == all);
    assert forall|o: Object| #[trigger] objects_of(all).contains(o) <==> live(v, o) || entombed(v, o) by {
        assert(none.union(objects_of(all)).contains(o) == objects_of(all).contains(o));
    }
}

/// The line of an item.
pub open spec fn line_of(
    vs: Map<Seq<char>, SchemaVersion>,
    ts: Map<Seq<char>, TsTableView>,
    x: Item,
) -> Seq<LineView> {
    match x {
        Item::Database(n) => database_line(vs, n),
        Item::Table(n, d) => table_line(vs, n, d),
        Item::Series(n, d) => {
            let (db, bare) = split_name(n);
            seq![(db, ts_create_text(bare, d), stamp_of(vs, "t:"@ + n))]
        },
        Item::Rollup(n, s, bucket_ms, _) => rollup_line(
            vs,
            ts,
            split_name(s).1,
            RollupView { name: n, bucket_ms },
        ),
        Item::Index(n, d) => index_line(vs, n, d),
        Item::Vector(n, d) => vector_line(vs, n, d),
        Item::Search(n, d, clause) => seq![search_line(vs, n, d, clause)],
        Item::Geo(n, d) => geo_line(vs, n, d),
        Item::Drop(o) => tombstone_line(key_of(o), vs[key_of(o)]),
    }
}

/// The lines of items, one after the other.
pub open spec fn lines_of(
    vs: Map<Seq<char>, SchemaVersion>,
    ts: Map<Seq<char>, TsTableView>,
    xs: Seq<Item>,
) -> Seq<LineView>
    decreases xs.len(),
{
    if xs.len() == 0 {
        Seq::empty()
    } else {
        lines_of(vs, ts, xs.drop_last()) + line_of(vs, ts, xs.last())
    }
}

proof fn lemma_lines_of_both(
    vs: Map<Seq<char>, SchemaVersion>,
    ts: Map<Seq<char>, TsTableView>,
    a: Seq<Item>,
    b: Seq<Item>,
)
    ensures
        lines_of(vs, ts, a + b) == lines_of(vs, ts, a) + lines_of(vs, ts, b),
    decreases b.len(),
{
    if b.len() == 0 {
        assert(a + b =~= a);
        assert(lines_of(vs, ts, a) + lines_of(vs, ts, b) =~= lines_of(vs, ts, a));
    } else {
        lemma_lines_of_both(vs, ts, a, b.drop_last());
        assert((a + b).drop_last() =~= a + b.drop_last());
        assert((a + b).last() == b.last());
        assert(lines_of(vs, ts, a + b) =~= lines_of(vs, ts, a) + lines_of(vs, ts, b));
    }
}

proof fn lemma_lines_of_one(
    vs: Map<Seq<char>, SchemaVersion>,
    ts: Map<Seq<char>, TsTableView>,
    x: Item,
)
    ensures
        lines_of(vs, ts, seq![x]) == line_of(vs, ts, x),
        lines_of(vs, ts, Seq::<Item>::empty()) == Seq::<LineView>::empty(),
{
    let xs = seq![x];
    assert(xs.drop_last() =~= Seq::<Item>::empty());
    assert(lines_of(vs, ts, xs.drop_last()) =~= Seq::<LineView>::empty());
    assert(lines_of(vs, ts, xs) =~= line_of(vs, ts, x));
}

proof fn lemma_lines_of_listed<D>(
    vs: Map<Seq<char>, SchemaVersion>,
    ts: Map<Seq<char>, TsTableView>,
    es: Seq<(String, D)>,
    f: spec_fn(Seq<char>, D) -> Seq<Item>,
    g: spec_fn(Seq<char>, D) -> Seq<LineView>,
)
    requires
        forall|i: int|
            0 <= i < es.len() ==> lines_of(vs, ts, f((#[trigger] es[i]).0@, es[i].1)) == g(
                es[i].0@,
                es[i].1,
            ),
    ensures
        lines_of(vs, ts, listed(es, f)) == flat(es, g),
    decreases es.len(),
{
    if es.len() > 0 {
        let init = es.drop_last();
        assert forall|i: int| 0 <= i < init.len() implies lines_of(
            vs,
            ts,
            f((#[trigger] init[i]).0@, init[i].1),
        ) == g(init[i].0@, init[i].1) by {
            assert(init[i] == es[i]);
        }
        lemma_lines_of_listed(vs, ts, init, f, g);
        let e = es[es.len() - 1];
        assert(es.last() == e);
        lemma_lines_of_both(vs, ts, listed(init, f), f(e.0@, e.1));
    }
}

proof fn lemma_rollup_lines(
    vs: Map<Seq<char>, SchemaVersion>,
    ts: Map<Seq<char>, TsTableView>,
    n: Seq<char>,
    rs: Seq<RollupView>,
)
    ensures
        lines_of(vs, ts, rollup_items(ts, n, rs)) == rollup_lines(vs, ts, split_name(n).1, rs),
    decreases rs.len(),
{
    if rs.len() > 0 {
        let init = rs.drop_last();
        lemma_rollup_lines(vs, ts, n, init);
        let xs = rollup_items(ts, n, rs);
        assert(xs.drop_last() =~= rollup_items(ts, n, init));
        let r = rs.last();
        assert(r == RollupView { name: r.name, bucket_ms: r.bucket_ms });
    }
}

proof fn lemma_search_lines(
    vs: Map<Seq<char>, SchemaVersion>,
    ts: Map<Seq<char>, TsTableView>,
    es: Seq<(String, SearchIndexDef)>,
    clauses: Seq<String>,
)
    ensures
        lines_of(vs, ts, search_items(es, clauses)) == search_lines(vs, es, clauses),
    decreases es.len(),
{
    let xs = search_items(es, clauses);
    let ls = search_lines(vs, es, clauses);
    if es.len() > 0 {
        lemma_search_lines(vs, ts, es.drop_last(), clauses);
        assert(xs.drop_last() =~= search_items(es.drop_last(), clauses));
        assert(ls =~= search_lines(vs, es.drop_last(), clauses).push(ls.last()));
        assert(lines_of(vs, ts, xs) =~= ls);
    } else {
        assert(xs =~= Seq::<Item>::empty());
        assert(ls =~= Seq::<LineView>::empty());
    }
}

/// The schema that a node sends for replication is its items' lines, one after
/// the other.
pub proof fn a_schema_is_sent_as_its_items(c: Catalog, clauses: Seq<String>)
    requires
        c.wf(),
        settled(c@),
    ensures
        object_lines(c, clauses) + trailing_lines(c) == lines_of(
            c@.versions,
            c@.timeseries,
            items_of(c, clauses),
        ),
{
    let vs = c@.versions;
    let ts = c@.timeseries;
    let fa = |n: Seq<char>, _u: ()| seq![Item::Database(n)];
    let fb = |n: Seq<char>, d: TableDef| seq![Item::Table(n, d@)];
    let fd = |n: Seq<char>, d: TsTableDef| series_items(ts, n, d@);
    let fe = |n: Seq<char>, d: IndexDef| seq![Item::Index(n, d@)];
    let ff = |n: Seq<char>, d: VectorIndexDef| seq![Item::Vector(n, d@)];
    let fh = |n: Seq<char>, d: GeoIndexDef| seq![Item::Geo(n, d@)];
    let fi = |k: Seq<char>, v: SchemaVersion| version_items(k, v);
    let ga = |n: Seq<char>, _u: ()| database_line(vs, n);
    let gb = |n: Seq<char>, d: TableDef| table_line(vs, n, d@);
    let gd = |n: Seq<char>, d: TsTableDef| timeseries_lines(vs, ts, n, d@);
    let ge = |n: Seq<char>, d: IndexDef| index_line(vs, n, d@);
    let gf = |n: Seq<char>, d: VectorIndexDef| vector_line(vs, n, d@);
    let gh = |n: Seq<char>, d: GeoIndexDef| geo_line(vs, n, d@);
    let gi = |n: Seq<char>, d: SchemaVersion| tombstone_line(n, d);
    assert forall|x: Item| #[trigger] lines_of(vs, ts, seq![x]) == line_of(vs, ts, x) by {
        lemma_lines_of_one(vs, ts, x);
    }
    lemma_lines_of_listed(vs, ts, c.databases.names.entries@, fa, ga);
    lemma_lines_of_listed(vs, ts, c.tables.entries@, fb, gb);
    assert forall|n: Seq<char>, d: TsTableDef| #[trigger]
        lines_of(vs, ts, fd(n, d)) == gd(n, d) by {
        if d@.rollup_of is None {
            let own = seq![Item::Series(n, d@)];
            lemma_lines_of_both(vs, ts, own, rollup_items(ts, n, d@.rollups));
            lemma_rollup_lines(vs, ts, n, d@.rollups);
            assert(lines_of(vs, ts, own) == line_of(vs, ts, Item::Series(n, d@)));
        } else {
            lemma_lines_of_one(vs, ts, Item::Database(n));
        }
    }
    lemma_lines_of_listed(vs, ts, c.timeseries.entries@, fd, gd);
    lemma_lines_of_listed(vs, ts, c.indexes.entries@, fe, ge);
    lemma_lines_of_listed(vs, ts, c.vector_indexes.entries@, ff, gf);
    lemma_search_lines(vs, ts, c.search_indexes.entries@, clauses);
    lemma_lines_of_listed(vs, ts, c.geo_indexes.entries@, fh, gh);
    let es = c.schema_versions.entries@;
    assert forall|i: int| 0 <= i < es.len() implies lines_of(
        vs,
        ts,
        fi((#[trigger] es[i]).0@, es[i].1),
    ) == gi(es[i].0@, es[i].1) by {
        lemma_entry_at(es, i);
        let k = es[i].0@;
        assert(vs.dom().contains(k) && vs[k] == es[i].1);
        lemma_key_of(k);
        lemma_lines_of_one(vs, ts, Item::Database(k));
        if object_at(k) is Some && vs[k].dropped {
            lemma_lines_of_one(vs, ts, Item::Drop(object_at(k)->0));
        }
    }
    lemma_lines_of_listed(vs, ts, es, fi, gi);
    let a = listed(c.databases.names.entries@, fa);
    let b = listed(c.tables.entries@, fb);
    let d = listed(c.timeseries.entries@, fd);
    let e = listed(c.indexes.entries@, fe);
    let f = listed(c.vector_indexes.entries@, ff);
    let g = search_items(c.search_indexes.entries@, clauses);
    let h = listed(c.geo_indexes.entries@, fh);
    let i = listed(es, fi);
    lemma_lines_of_both(vs, ts, a, b);
    lemma_lines_of_both(vs, ts, a + b, d);
    lemma_lines_of_both(vs, ts, a + b + d, e);
    lemma_lines_of_both(vs, ts, a + b + d + e, f);
    lemma_lines_of_both(vs, ts, a + b + d + e + f, g);
    lemma_lines_of_both(vs, ts, a + b + d + e + f + g, h);
    lemma_lines_of_both(vs, ts, a + b + d + e + f + g + h, i);
    assert(items_of(c, clauses) == a + b + d + e + f + g + h + i);
    lemma_no_accounts(c);
    assert(object_lines(c, clauses) == lines_of(vs, ts, a + b + d + e + f + g + h));
    assert(trailing_lines(c) == flat(es, gi));
}

/// Without users and roles the trailing lines are those of the tombstones.
proof fn lemma_no_accounts(c: Catalog)
    requires
        c.wf(),
        c@.users.dom() =~= Set::empty(),
        c@.auth_roles.dom() =~= Set::empty(),
    ensures
        trailing_lines(c) == flat(
            c.schema_versions.entries@,
            |n: Seq<char>, d: SchemaVersion| tombstone_line(n, d),
        ),
{
    let us = c.users.entries@;
    let rs = c.auth_roles.entries@;
    if us.len() > 0 {
        lemma_entry_at(us, 0);
        assert(c@.users.dom().contains(us[0].0@));
    }
    if rs.len() > 0 {
        lemma_entry_at(rs, 0);
        assert(c@.auth_roles.dom().contains(rs[0].0@));
    }
    let ts = flat(
        c.schema_versions.entries@,
        |n: Seq<char>, d: SchemaVersion| tombstone_line(n, d),
    );
    assert(Seq::<LineView>::empty() + Seq::<LineView>::empty() + ts =~= ts);
}

/// The lines that the entry of a name makes; none where it has no entry.
pub open spec fn piece<D>(
    es: Seq<(String, D)>,
    f: spec_fn(Seq<char>, D) -> Seq<LineView>,
    n: Seq<char>,
) -> Seq<LineView> {
    if holds_key(es, n) {
        f(n, entry_map(es)[n])
    } else {
        Seq::empty()
    }
}

/// The last entry's lines are its own, and the others are without it as they
/// are with it.
proof fn lemma_last_piece<D>(es: Seq<(String, D)>, f: spec_fn(Seq<char>, D) -> Seq<LineView>)
    requires
        ascending(es),
        es.len() > 0,
    ensures
        ascending(es.drop_last()),
        flat(es, f) == flat(es.drop_last(), f) + piece(es, f, es.last().0@),
        forall|n: Seq<char>| #[trigger]
            piece(es.drop_last(), f, n) == (if n == es.last().0@ {
                Seq::empty()
            } else {
                piece(es, f, n)
            }),
{
    let last = es.len() - 1;
    let init = es.drop_last();
    lemma_entry_at(es, last);
    assert forall|i: int, j: int| 0 <= i < j < init.len() implies <String as SortKey>::below(
        (#[trigger] init[i]).0.model(),
        (#[trigger] init[j]).0.model(),
    ) by {
        assert(<String as SortKey>::below(es[i].0.model(), es[j].0.model()));
    }
    assert forall|n: Seq<char>| #[trigger]
        piece(init, f, n) == (if n == es.last().0@ {
            Seq::empty()
        } else {
            piece(es, f, n)
        }) by {
        if holds_key(init, n) {
            let i = choose|i: int| 0 <= i < init.len() && (#[trigger] init[i]).0.model() == n;
            lemma_entry_at(init, i);
            lemma_entry_at(es, i);
            assert(init[i] == es[i]);
            assert(<String as SortKey>::below(es[i].0.model(), es[last].0.model()));
            lemma_seq_lt_irrefl(n);
        } else if n != es.last().0@ && holds_key(es, n) {
            let i = choose|i: int| 0 <= i < es.len() && (#[trigger] es[i]).0.model() == n;
            assert(init[i].0.model() == n);
        }
    }
}

/// A name behind all entries has none.
proof fn lemma_no_piece<D>(
    es: Seq<(String, D)>,
    f: spec_fn(Seq<char>, D) -> Seq<LineView>,
    n: Seq<char>,
)
    requires
        ascending(es),
        es.len() > 0 ==> seq_lt(es.last().0@, n),
    ensures
        piece(es, f, n) == Seq::<LineView>::empty(),
{
    if holds_key(es, n) {
        let i = choose|i: int| 0 <= i < es.len() && (#[trigger] es[i]).0.model() == n;
        let last = es.len() - 1;
        lemma_seq_lt_irrefl(n);
        if i < last {
            assert(<String as SortKey>::below(es[i].0.model(), es[last].0.model()));
            lemma_seq_lt_trans(n, es[last].0@, n);
        }
    }
}

/// Where each name makes the same lines, so do all.
proof fn lemma_flat_same<D>(
    a: Seq<(String, D)>,
    b: Seq<(String, D)>,
    f: spec_fn(Seq<char>, D) -> Seq<LineView>,
    g: spec_fn(Seq<char>, D) -> Seq<LineView>,
)
    requires
        ascending(a),
        ascending(b),
        forall|n: Seq<char>| #[trigger] piece(a, f, n) == piece(b, g, n),
    ensures
        flat(a, f) == flat(b, g),
    decreases a.len() + b.len(),
{
    if a.len() > 0 {
        lemma_last_piece(a, f);
    }
    if b.len() > 0 {
        lemma_last_piece(b, g);
    }
    if a.len() == 0 && b.len() == 0 {
        assert(flat(a, f) =~= flat(b, g));
    } else if b.len() == 0 || (a.len() > 0 && seq_lt(b.last().0@, a.last().0@)) {
        let n = a.last().0@;
        lemma_no_piece(b, g, n);
        assert(piece(a, f, n) == piece(b, g, n));
        assert forall|m: Seq<char>| #[trigger] piece(a.drop_last(), f, m) == piece(b, g, m) by {
            assert(piece(a, f, m) == piece(b, g, m));
        }
        lemma_flat_same(a.drop_last(), b, f, g);
        assert(flat(a, f) =~= flat(a.drop_last(), f));
    } else if a.len() == 0 || seq_lt(a.last().0@, b.last().0@) {
        let n = b.last().0@;
        lemma_no_piece(a, f, n);
        assert(piece(a, f, n) == piece(b, g, n));
        assert forall|m: Seq<char>| #[trigger] piece(a, f, m) == piece(b.drop_last(), g, m) by {
            assert(piece(a, f, m) == piece(b, g, m));
        }
        lemma_flat_same(a, b.drop_last(), f, g);
        assert(flat(b, g) =~= flat(b.drop_last(), g));
    } else {
        let n = a.last().0@;
        lemma_seq_lt_total(n, b.last().0@);
        assert(piece(a, f, n) == piece(b, g, n));
        assert forall|m: Seq<char>| #[trigger] piece(a.drop_last(), f, m) == piece(
            b.drop_last(),
            g,
            m,
        ) by {
            assert(piece(a, f, m) == piece(b, g, m));
        }
        lemma_flat_same(a.drop_last(), b.drop_last(), f, g);
    }
}

/// Whether a peer's catalog is what the statements of all of a settled
/// catalog's objects make.
pub open spec fn is_made(c: CatalogView, peer: CatalogView) -> bool {
    settled(c) && exists|all: Set<Object>| #[trigger]
        made(c, all) == peer && forall|o: Object| #[trigger]
            all.contains(o) <==> live(c, o) || entombed(c, o)
}

/// What a peer has of one object: it is live there where it is here, with the
/// same stamp, and looks the same to the lines.
proof fn lemma_made_object(c: CatalogView, peer: CatalogView, o: Object)
    requires
        is_made(c, peer),
    ensures
        live(c, o) ==> stamp_of(peer.versions, key_of(o)) == stamp_of(c.versions, key_of(o)),
        o.0 == Kind::Database ==> (peer.databases.contains(o.1) <==> c.databases.contains(o.1)),
        o.0 == Kind::Table ==> {
            &&& peer.tables.dom().contains(o.1) <==> c.tables.dom().contains(o.1)
            &&& c.tables.dom().contains(o.1) ==> peer.tables[o.1] == made_table(c.tables[o.1])
            &&& peer.timeseries.dom().contains(o.1) <==> c.timeseries.dom().contains(o.1)
        },
        o.0 == Kind::Index ==> {
            &&& peer.indexes.dom().contains(o.1) <==> c.indexes.dom().contains(o.1)
            &&& c.indexes.dom().contains(o.1) ==> !c.indexes[o.1].global && peer.indexes[o.1] == (
            IndexView { building: true, ..c.indexes[o.1] })
        },
        o.0 == Kind::Vector ==> {
            &&& peer.vector_indexes.dom().contains(o.1) <==> c.vector_indexes.dom().contains(o.1)
            &&& c.vector_indexes.dom().contains(o.1) ==> peer.vector_indexes[o.1] == (
            VectorIndexView { ef_search: None, ..c.vector_indexes[o.1] })
        },
        o.0 == Kind::Search ==> {
            &&& peer.search_indexes.dom().contains(o.1) <==> c.search_indexes.dom().contains(o.1)
            &&& c.search_indexes.dom().contains(o.1) ==> peer.search_indexes[o.1]
                == c.search_indexes[o.1]
        },
        o.0 == Kind::Geo ==> {
            &&& peer.geo_indexes.dom().contains(o.1) <==> c.geo_indexes.dom().contains(o.1)
            &&& c.geo_indexes.dom().contains(o.1) ==> peer.geo_indexes[o.1] == (GeoIndexView {
                building: true,
                ..c.geo_indexes[o.1]
            })
        },
{
    let all = choose|all: Set<Object>| #[trigger]
        made(c, all) == peer && forall|o: Object| #[trigger]
            all.contains(o) <==> live(c, o) || entombed(c, o);
    lemma_object_at(o);
    assert(all.contains(o) <==> live(c, o) || entombed(c, o));
}

proof fn lemma_same_database_lines(c: Catalog, peer: Catalog)
    requires
        c.wf(),
        peer.wf(),
        is_made(c@, peer@),
    ensures
        flat(
            peer.databases.names.entries@,
            |n: Seq<char>, _u: ()| database_line(peer@.versions, n),
        ) == flat(
            c.databases.names.entries@,
            |n: Seq<char>, _u: ()| database_line(c@.versions, n),
        ),
{
    let vc = c@.versions;
    let vp = peer@.versions;
    let fc = |n: Seq<char>, _u: ()| database_line(vc, n);
    let fp = |n: Seq<char>, _u: ()| database_line(vp, n);
    let es = peer.databases.names.entries@;
    let ec = c.databases.names.entries@;
    assert forall|n: Seq<char>| #[trigger] piece(es, fp, n) == piece(ec, fc, n) by {
        lemma_made_object(c@, peer@, (Kind::Database, n));
        assert(holds_key(es, n) == peer@.databases.contains(n));
        assert(holds_key(ec, n) == c@.databases.contains(n));
    }
    lemma_flat_same(es, ec, fp, fc);
}

proof fn lemma_same_table_lines(c: Catalog, peer: Catalog)
    requires
        c.wf(),
        peer.wf(),
        is_made(c@, peer@),
    ensures
        flat(
            peer.tables.entries@,
            |n: Seq<char>, d: TableDef| table_line(peer@.versions, n, d@),
        ) == flat(c.tables.entries@, |n: Seq<char>, d: TableDef| table_line(c@.versions, n, d@)),
{
    let vc = c@.versions;
    let vp = peer@.versions;
    let fc = |n: Seq<char>, d: TableDef| table_line(vc, n, d@);
    let fp = |n: Seq<char>, d: TableDef| table_line(vp, n, d@);
    assert forall|n: Seq<char>| #[trigger]
        piece(peer.tables.entries@, fp, n) == piece(c.tables.entries@, fc, n) by {
        lemma_made_object(c@, peer@, (Kind::Table, n));
        assert(holds_key(peer.tables.entries@, n) == peer@.tables.dom().contains(n));
        assert(holds_key(c.tables.entries@, n) == c@.tables.dom().contains(n));
        if c@.tables.dom().contains(n) {
            assert(peer@.tables[n] == entry_map(peer.tables.entries@)[n]@);
            assert(c@.tables[n] == entry_map(c.tables.entries@)[n]@);
        }
    }
    lemma_flat_same(peer.tables.entries@, c.tables.entries@, fp, fc);
}

proof fn lemma_same_index_lines(c: Catalog, peer: Catalog)
    requires
        c.wf(),
        peer.wf(),
        is_made(c@, peer@),
    ensures
        flat(
            peer.indexes.entries@,
            |n: Seq<char>, d: IndexDef| index_line(peer@.versions, n, d@),
        ) == flat(c.indexes.entries@, |n: Seq<char>, d: IndexDef| index_line(c@.versions, n, d@)),
{
    let vc = c@.versions;
    let vp = peer@.versions;
    let fc = |n: Seq<char>, d: IndexDef| index_line(vc, n, d@);
    let fp = |n: Seq<char>, d: IndexDef| index_line(vp, n, d@);
    assert forall|n: Seq<char>| #[trigger]
        piece(peer.indexes.entries@, fp, n) == piece(c.indexes.entries@, fc, n) by {
        lemma_made_object(c@, peer@, (Kind::Index, n));
        assert(holds_key(peer.indexes.entries@, n) == peer@.indexes.dom().contains(n));
        assert(holds_key(c.indexes.entries@, n) == c@.indexes.dom().contains(n));
        if c@.indexes.dom().contains(n) {
            assert(peer@.indexes[n] == entry_map(peer.indexes.entries@)[n]@);
            assert(c@.indexes[n] == entry_map(c.indexes.entries@)[n]@);
        }
    }
    lemma_flat_same(peer.indexes.entries@, c.indexes.entries@, fp, fc);
}

proof fn lemma_same_vector_lines(c: Catalog, peer: Catalog)
    requires
        c.wf(),
        peer.wf(),
        is_made(c@, peer@),
    ensures
        flat(
            peer.vector_indexes.entries@,
            |n: Seq<char>, d: VectorIndexDef| vector_line(peer@.versions, n, d@),
        ) == flat(c.vector_indexes.entries@, |n: Seq<char>, d: VectorIndexDef| vector_line(c@.versions, n, d@)),
{
    let vc = c@.versions;
    let vp = peer@.versions;
    let fc = |n: Seq<char>, d: VectorIndexDef| vector_line(vc, n, d@);
    let fp = |n: Seq<char>, d: VectorIndexDef| vector_line(vp, n, d@);
    assert forall|n: Seq<char>| #[trigger]
        piece(peer.vector_indexes.entries@, fp, n) == piece(c.vector_indexes.entries@, fc, n) by {
        lemma_made_object(c@, peer@, (Kind::Vector, n));
        assert(holds_key(peer.vector_indexes.entries@, n) == peer@.vector_indexes.dom().contains(n));
        assert(holds_key(c.vector_indexes.entries@, n) == c@.vector_indexes.dom().contains(n));
        if c@.vector_indexes.dom().contains(n) {
            assert(peer@.vector_indexes[n] == entry_map(peer.vector_indexes.entries@)[n]@);
            assert(c@.vector_indexes[n] == entry_map(c.vector_indexes.entries@)[n]@);
        }
    }
    lemma_flat_same(peer.vector_indexes.entries@, c.vector_indexes.entries@, fp, fc);
}

proof fn lemma_same_geo_lines(c: Catalog, peer: Catalog)
    requires
        c.wf(),
        peer.wf(),
        is_made(c@, peer@),
    ensures
        flat(
            peer.geo_indexes.entries@,
            |n: Seq<char>, d: GeoIndexDef| geo_line(peer@.versions, n, d@),
        ) == flat(c.geo_indexes.entries@, |n: Seq<char>, d: GeoIndexDef| geo_line(c@.versions, n, d@)),
{
    let vc = c@.versions;
    let vp = peer@.versions;
    let fc = |n: Seq<char>, d: GeoIndexDef| geo_line(vc, n, d@);
    let fp = |n: Seq<char>, d: GeoIndexDef| geo_line(vp, n, d@);
    assert forall|n: Seq<char>| #[trigger]
        piece(peer.geo_indexes.entries@, fp, n) == piece(c.geo_indexes.entries@, fc, n) by {
        lemma_made_object(c@, peer@, (Kind::Geo, n));
        assert(holds_key(peer.geo_indexes.entries@, n) == peer@.geo_indexes.dom().contains(n));
        assert(holds_key(c.geo_indexes.entries@, n) == c@.geo_indexes.dom().contains(n));
        if c@.geo_indexes.dom().contains(n) {
            assert(peer@.geo_indexes[n] == entry_map(peer.geo_indexes.entries@)[n]@);
            assert(c@.geo_indexes[n] == entry_map(c.geo_indexes.entries@)[n]@);
        }
    }
    lemma_flat_same(peer.geo_indexes.entries@, c.geo_indexes.entries@, fp, fc);
}

/// What a peer has of a time-series table.
proof fn lemma_made_series(c: CatalogView, peer: CatalogView, n: Seq<char>)
    requires
        is_made(c, peer),
        c.timeseries.dom().contains(n),
    ensures
        peer.timeseries.dom().contains(n),
        peer.timeseries[n].rollup_of == c.timeseries[n].rollup_of,
        peer.timeseries[n].retention_ms == c.timeseries[n].retention_ms,
        c.timeseries[n].rollup_of is None ==> peer.timeseries[n] == (TsTableView {
            ooo_window_ms: late_window(c.timeseries[n]),
            ..c.timeseries[n]
        }),
{
    let all = choose|all: Set<Object>| #[trigger]
        made(c, all) == peer && forall|o: Object| #[trigger]
            all.contains(o) <==> live(c, o) || entombed(c, o);
    assert(all.contains((Kind::Table, n)));
    let ts = c.timeseries;
    assert(peer.timeseries[n] == made_series(ts, n, all));
    assert(series_holds(ts, n));
    if ts[n].rollup_of is None {
        let rs = ts[n].rollups;
        assert forall|i: int| 0 <= i < rs.len() implies (all.contains(
            (Kind::Table, (#[trigger] rs[i]).name),
        ) <==> i < rs.len()) by {
            assert(live(c, (Kind::Table, rs[i].name)));
        }
        lemma_rollups_made(rs, all, rs.len() as int);
        assert(rs.take(rs.len() as int) =~= rs);
    }
}

proof fn lemma_same_rollup_lines(
    c: CatalogView,
    peer: CatalogView,
    source: Seq<char>,
    rs: Seq<RollupView>,
)
    requires
        is_made(c, peer),
    ensures
        rollup_lines(peer.versions, peer.timeseries, source, rs) == rollup_lines(
            c.versions,
            c.timeseries,
            source,
            rs,
        ),
    decreases rs.len(),
{
    if rs.len() > 0 {
        lemma_same_rollup_lines(c, peer, source, rs.drop_last());
        let n = rs.last().name;
        lemma_made_object(c, peer, (Kind::Table, n));
        if c.timeseries.dom().contains(n) {
            lemma_made_series(c, peer, n);
        }
    }
}

proof fn lemma_same_series_lines(c: Catalog, peer: Catalog)
    requires
        c.wf(),
        peer.wf(),
        is_made(c@, peer@),
    ensures
        ({
            let tp = peer@.timeseries;
            let tc = c@.timeseries;
            flat(
                peer.timeseries.entries@,
                |n: Seq<char>, d: TsTableDef| timeseries_lines(peer@.versions, tp, n, d@),
            ) == flat(
                c.timeseries.entries@,
                |n: Seq<char>, d: TsTableDef| timeseries_lines(c@.versions, tc, n, d@),
            )
        }),
{
    let vc = c@.versions;
    let vp = peer@.versions;
    let tc = c@.timeseries;
    let tp = peer@.timeseries;
    let fc = |n: Seq<char>, d: TsTableDef| timeseries_lines(vc, tc, n, d@);
    let fp = |n: Seq<char>, d: TsTableDef| timeseries_lines(vp, tp, n, d@);
    let ep = peer.timeseries.entries@;
    let ec = c.timeseries.entries@;
    assert forall|n: Seq<char>| #[trigger] piece(ep, fp, n) == piece(ec, fc, n) by {
        lemma_made_object(c@, peer@, (Kind::Table, n));
        assert(holds_key(ep, n) == tp.dom().contains(n));
        assert(holds_key(ec, n) == tc.dom().contains(n));
        if tc.dom().contains(n) {
            lemma_made_series(c@, peer@, n);
            assert(tp[n] == entry_map(ep)[n]@);
            assert(tc[n] == entry_map(ec)[n]@);
            if tc[n].rollup_of is None {
                let bare = split_name(n).1;
                lemma_same_rollup_lines(c@, peer@, bare, tc[n].rollups);
                assert(ts_create_text(bare, tp[n]) == ts_create_text(bare, tc[n]));
            }
        }
    }
    lemma_flat_same(ep, ec, fp, fc);
}

proof fn lemma_same_search_lines(c: Catalog, peer: Catalog, clauses: Seq<String>)
    requires
        c.wf(),
        peer.wf(),
        is_made(c@, peer@),
    ensures
        search_lines(peer@.versions, peer.search_indexes.entries@, clauses) == search_lines(
            c@.versions,
            c.search_indexes.entries@,
            clauses,
        ),
{
    let ep = peer.search_indexes.entries@;
    let ec = c.search_indexes.entries@;
    let np = ep.map_values(|e: (String, SearchIndexDef)| e.0@);
    let nc = ec.map_values(|e: (String, SearchIndexDef)| e.0@);
    assert forall|i: int, j: int| 0 <= i < j < np.len() implies seq_lt(
        #[trigger] np[i],
        #[trigger] np[j],
    ) by {
        assert(<String as SortKey>::below(ep[i].0.model(), ep[j].0.model()));
    }
    assert forall|i: int, j: int| 0 <= i < j < nc.len() implies seq_lt(
        #[trigger] nc[i],
        #[trigger] nc[j],
    ) by {
        assert(<String as SortKey>::below(ec[i].0.model(), ec[j].0.model()));
    }
    assert forall|n: Seq<char>| #[trigger] np.contains(n) <==> nc.contains(n) by {
        lemma_made_object(c@, peer@, (Kind::Search, n));
        assert(holds_key(ep, n) == peer@.search_indexes.dom().contains(n));
        assert(holds_key(ec, n) == c@.search_indexes.dom().contains(n));
        if np.contains(n) {
            let i = choose|i: int| 0 <= i < np.len() && np[i] == n;
            assert(ep[i].0.model() == n);
            assert(holds_key(ep, n));
            let j = choose|j: int| 0 <= j < ec.len() && (#[trigger] ec[j]).0.model() == n;
            assert(nc[j] == n);
        }
        if nc.contains(n) {
            let i = choose|i: int| 0 <= i < nc.len() && nc[i] == n;
            assert(ec[i].0.model() == n);
            assert(holds_key(ec, n));
            let j = choose|j: int| 0 <= j < ep.len() && (#[trigger] ep[j]).0.model() == n;
            assert(np[j] == n);
        }
    }
    lemma_ascending_unique(np, nc);
    assert(ep.len() == np.len() && ec.len() == nc.len());
    let lp = search_lines(peer@.versions, ep, clauses);
    let lc = search_lines(c@.versions, ec, clauses);
    assert forall|i: int| 0 <= i < lp.len() implies lp[i] == lc[i] by {
        assert(np[i] == ep[i].0@ && nc[i] == ec[i].0@);
        lemma_entry_at(ep, i);
        lemma_entry_at(ec, i);
        let n = ec[i].0@;
        lemma_made_object(c@, peer@, (Kind::Search, n));
        assert(c@.search_indexes.dom().contains(n));
        assert(peer@.search_indexes[n] == ep[i].1@);
        assert(c@.search_indexes[n] == ec[i].1@);
    }
    assert(lp =~= lc);
}

proof fn lemma_same_tombstone_lines(c: Catalog, peer: Catalog)
    requires
        c.wf(),
        peer.wf(),
        is_made(c@, peer@),
    ensures
        trailing_lines(peer) == trailing_lines(c),
{
    let v = c@;
    let w = peer@;
    let all = choose|all: Set<Object>| #[trigger]
        made(v, all) == w && forall|o: Object| #[trigger]
            all.contains(o) <==> live(v, o) || entombed(v, o);
    let f = |n: Seq<char>, d: SchemaVersion| tombstone_line(n, d);
    let ep = peer.schema_versions.entries@;
    let ec = c.schema_versions.entries@;
    assert forall|k: Seq<char>| #[trigger] piece(ep, f, k) == piece(ec, f, k) by {
        lemma_key_of(k);
        assert(holds_key(ep, k) == w.versions.dom().contains(k));
        assert(holds_key(ec, k) == v.versions.dom().contains(k));
        if w.versions.dom().contains(k) {
            assert(w.versions[k] == entry_map(ep)[k]);
        }
        if v.versions.dom().contains(k) {
            assert(v.versions[k] == entry_map(ec)[k]);
            if v.versions[k].dropped && object_at(k) is Some {
                assert(entombed(v, object_at(k)->0));
                assert(all.contains(object_at(k)->0));
            }
        }
    }
    lemma_flat_same(ep, ec, f, f);
    assert(w.users.dom() =~= Set::empty());
    assert(w.auth_roles.dom() =~= Set::empty());
    lemma_no_accounts(c);
    lemma_no_accounts(peer);
}

/// A catalog that nothing has been made of is empty.
proof fn lemma_nothing_made(c: CatalogView)
    ensures
        made(c, Set::empty()) == empty_catalog(),
{
    let m = made(c, Set::empty());
    let e = empty_catalog();
    assert(m.databases =~= e.databases);
    assert(m.tables =~= e.tables);
    assert(m.timeseries =~= e.timeseries);
    assert(m.indexes =~= e.indexes);
    assert(m.vector_indexes =~= e.vector_indexes);
    assert(m.search_indexes =~= e.search_indexes);
    assert(m.geo_indexes =~= e.geo_indexes);
    assert(m.versions =~= e.versions);
}

/// Schema replication reproduces a schema: an empty peer that replays the
/// statements that a node sends, each at its stamp, itself sends the same lines
/// from then on. The statements are taken as the definitions that their texts
/// stand for.
pub proof fn a_replayed_schema_is_sent_the_same(
    c: Catalog,
    clauses: Seq<String>,
    stmts: Seq<(Statement, Hlc)>,
    f: SchemaFacts,
    v: DbView,
    peer: Catalog,
)
    requires
        c.wf(),
        settled(c@),
        stand_for(c@.versions, stmts, items_of(c, clauses)),
        makes_indexes(f),
        v.cat == empty_catalog(),
        peer.wf(),
        peer@ == replay(v, stmts, f).cat,
    ensures
        object_lines(peer, clauses) + trailing_lines(peer) == object_lines(c, clauses)
            + trailing_lines(c),
{
    let xs = items_of(c, clauses);
    lemma_items_in_turn(c, clauses);
    lemma_nothing_made(c@);
    lemma_items_made(c@, Set::empty(), xs, stmts, f, v);
    let all = objects_of(xs);
    assert(Set::<Object>::empty().union(all) =~= all);
    assert(made(c@, all) == peer@);
    assert(is_made(c@, peer@));
    lemma_same_database_lines(c, peer);
    lemma_same_table_lines(c, peer);
    lemma_same_series_lines(c, peer);
    lemma_same_index_lines(c, peer);
    lemma_same_vector_lines(c, peer);
    lemma_same_search_lines(c, peer, clauses);
    lemma_same_geo_lines(c, peer);
    lemma_same_tombstone_lines(c, peer);
    assert(object_lines(peer, clauses) == object_lines(c, clauses));
}

} // verus!
