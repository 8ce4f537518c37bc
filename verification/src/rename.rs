//! `ALTER TABLE ... RENAME COLUMN`: what becomes of the catalog, of the rows,
//! and which indexes have to be built anew.

use vstd::prelude::*;

use crate::alter::alter_kind;
use crate::alter::column_renamed;
use crate::alter::lists_on;
use crate::alter::names_on;
use crate::alter::rebuilding;
use crate::alter::rename_table_step;
use crate::alter::table_options_step;
use crate::alter::ts_options_step;
use crate::alter::AlterAction;
use crate::alter::AlterKind;
use crate::bytes::same_bytes;
use crate::catalog::defined_on;
use crate::catalog::option_views;
use crate::catalog::put_def;
use crate::catalog::take_def;
use crate::catalog::CatalogView;
use crate::catalog::GeoIndexDef;
use crate::catalog::GeoIndexView;
use crate::catalog::IndexDef;
use crate::catalog::IndexView;
use crate::catalog::OnTable;
use crate::catalog::SearchIndexDef;
use crate::catalog::VectorIndexDef;
use crate::database::Database;
use crate::database::DbView;
use crate::ddl_database::names_ascend;
use crate::describe::in_order;
use crate::error::EngineError;
use crate::error::ErrorView;
use crate::execute::is_encoder;
use crate::execute::primary_key_bytes;
use crate::execute::row_key;
use crate::model::copy_document;
use crate::model::doc_view;
use crate::model::doc_wf;
use crate::model::Fields;
use crate::text::views;
use crate::value::Document;
use crate::value::Value;

verus! {

/// The names of the definitions on `table`, in order.
pub open spec fn names_defined_on<D: OnTable>(m: Map<Seq<char>, D::V>, table: Seq<char>) -> Seq<
    Seq<char>,
> {
    in_order(Set::new(|n: Seq<char>| defined_on::<D>(m, table, n)))
}

proof fn lemma_names_defined_on<D: OnTable>(
    names: Seq<Seq<char>>,
    m: Map<Seq<char>, D::V>,
    table: Seq<char>,
)
    requires
        lists_on::<D>(names, m, table),
    ensures
        names == names_defined_on::<D>(m, table),
{
    let s = Set::new(|n: Seq<char>| defined_on::<D>(m, table, n));
    assert(names_ascend(names) && forall|n: Seq<char>| #[trigger]
        names.contains(n) <==> s.contains(n));
    let b = in_order(s);
    assert(names_ascend(b) && forall|n: Seq<char>| #[trigger] b.contains(n) <==> s.contains(n));
    assert forall|n: Seq<char>| #[trigger] names.contains(n) <==> b.contains(n) by {
        assert(names.contains(n) <==> s.contains(n));
        assert(b.contains(n) <==> s.contains(n));
    }
    crate::ddl_database::lemma_ascending_unique(names, b);
}

/// The indexes of a map that are named as building.
pub open spec fn marked(m: Map<Seq<char>, IndexView>, names: Seq<Seq<char>>) -> Map<
    Seq<char>,
    IndexView,
> {
    Map::new(
        |n: Seq<char>| m.dom().contains(n),
        |n: Seq<char>|
            if names.contains(n) {
                IndexView { building: true, ..m[n] }
            } else {
                m[n]
            },
    )
}

/// The geo indexes of a map that are named as building.
pub open spec fn marked_geo(m: Map<Seq<char>, GeoIndexView>, names: Seq<Seq<char>>) -> Map<
    Seq<char>,
    GeoIndexView,
> {
    Map::new(
        |n: Seq<char>| m.dom().contains(n),
        |n: Seq<char>|
            if names.contains(n) {
                GeoIndexView { building: true, ..m[n] }
            } else {
                m[n]
            },
    )
}

/// Every geo index on `table` as building.
pub open spec fn rebuilding_geo(m: Map<Seq<char>, GeoIndexView>, table: Seq<char>) -> Map<
    Seq<char>,
    GeoIndexView,
> {
    m.map_values(
        |d: GeoIndexView|
            if d.table == table {
                GeoIndexView { building: true, ..d }
            } else {
                d
            },
    )
}

/// A database after a column was renamed: the table's key and the index paths
/// follow the column, and every index on the table is owed its entries anew.
pub open spec fn after_rename(v: DbView, table: Seq<char>, from: Seq<char>, to: Seq<char>) -> DbView {
    let cat = column_renamed(v.cat, table, from, to);
    let vectors = names_defined_on::<VectorIndexDef>(cat.vector_indexes, table);
    DbView {
        cat: CatalogView {
            indexes: rebuilding(cat.indexes, table),
            geo_indexes: rebuilding_geo(cat.geo_indexes, table),
            ..cat
        },
        building_vectors: v.building_vectors.union(vectors.to_set()),
        pending_backfills: v.pending_backfills + names_defined_on::<IndexDef>(cat.indexes, table),
        pending_vector_backfills: v.pending_vector_backfills + vectors,
        pending_geo_backfills: v.pending_geo_backfills + names_defined_on::<GeoIndexDef>(
            cat.geo_indexes,
            table,
        ),
        ..v
    }
}

impl Database {
    fn rebuild_indexes(&mut self, names: &Vec<String>)
        requires
            old(self).wf(),
            forall|i: int|
                0 <= i < names@.len() ==> old(self)@.cat.indexes.dom().contains(
                    (#[trigger] names@[i])@,
                ),
        ensures
            final(self).wf(),
            final(self)@ == (DbView {
                cat: CatalogView {
                    indexes: marked(old(self)@.cat.indexes, views(names@)),
                    ..old(self)@.cat
                },
                pending_backfills: old(self)@.pending_backfills + views(names@),
                ..old(self)@
            }),
    {
        let ghost v = self@;
        let ghost ns = views(names@);
        let mut i: usize = 0;
        proof {
            assert(marked(v.cat.indexes, ns.take(0)) =~= v.cat.indexes);
            assert(v.pending_backfills + ns.take(0) =~= v.pending_backfills);
        }
        while i < names.len()
            invariant
                self.wf(),
                ns == views(names@),
                forall|i: int|
                    0 <= i < names@.len() ==> v.cat.indexes.dom().contains((#[trigger] names@[i])@),
                i <= names@.len(),
                self@ == (DbView {
                    cat: CatalogView {
                        indexes: marked(v.cat.indexes, ns.take(i as int)),
                        ..v.cat
                    },
                    pending_backfills: v.pending_backfills + ns.take(i as int),
                    ..v
                }),
            decreases names@.len() - i,
        {
            let ghost before = marked(v.cat.indexes, ns.take(i as int));
            let ghost n = ns[i as int];
            proof {
                assert(v.cat.indexes.dom().contains(names@[i as int]@));
            }
            let _ = self.rebuild_index(names[i].as_str());
            proof {
                let now = ns.take(i + 1);
                assert(now =~= ns.take(i as int).push(n));
                assert(now[i as int] == n);
                assert forall|x: Seq<char>| now.contains(x) <==> ns.take(i as int).contains(x) || x
                    == n by {
                    if now.contains(x) {
                        let p = choose|p: int| 0 <= p < now.len() && now[p] == x;
                        if p < i {
                            assert(ns.take(i as int)[p] == x);
                        }
                    }
                    if ns.take(i as int).contains(x) {
                        let p = choose|p: int| 0 <= p < i && ns.take(i as int)[p] == x;
                        assert(now[p] == x);
                    }
                }
                assert(marked(v.cat.indexes, now) =~= before.insert(
                    n,
                    IndexView { building: true, ..before[n] },
                ));
                assert(v.pending_backfills + now =~= (v.pending_backfills + ns.take(i as int)).push(
                    n,
                ));
            }
            i = i + 1;
        }
        proof {
            assert(ns.take(ns.len() as int) =~= ns);
        }
    }

    /// Marks geo indexes as building again and their backfills as owed.
    fn rebuild_geo_indexes(&mut self, names: &Vec<String>)
        requires
            old(self).wf(),
            forall|i: int|
                0 <= i < names@.len() ==> old(self)@.cat.geo_indexes.dom().contains(
                    (#[trigger] names@[i])@,
                ),
        ensures
            final(self).wf(),
            final(self)@ == (DbView {
                cat: CatalogView {
                    geo_indexes: marked_geo(old(self)@.cat.geo_indexes, views(names@)),
                    ..old(self)@.cat
                },
                pending_geo_backfills: old(self)@.pending_geo_backfills + views(names@),
                ..old(self)@
            }),
    {
        let ghost v = self@;
        let ghost ns = views(names@);
        let mut i: usize = 0;
        proof {
            assert(marked_geo(v.cat.geo_indexes, ns.take(0)) =~= v.cat.geo_indexes);
            assert(v.pending_geo_backfills + ns.take(0) =~= v.pending_geo_backfills);
        }
        while i < names.len()
            invariant
                self.wf(),
                ns == views(names@),
                forall|i: int|
                    0 <= i < names@.len() ==> v.cat.geo_indexes.dom().contains(
                        (#[trigger] names@[i])@,
                    ),
                i <= names@.len(),
                self@ == (DbView {
                    cat: CatalogView {
                        geo_indexes: marked_geo(v.cat.geo_indexes, ns.take(i as int)),
                        ..v.cat
                    },
                    pending_geo_backfills: v.pending_geo_backfills + ns.take(i as int),
                    ..v
                }),
            decreases names@.len() - i,
        {
            let ghost before = marked_geo(v.cat.geo_indexes, ns.take(i as int));
            let ghost owed = self@.pending_geo_backfills;
            let ghost n = ns[i as int];
            proof {
                assert(v.cat.geo_indexes.dom().contains(names@[i as int]@));
            }
            if let Some(mut def) = take_def(&mut self.catalog.geo_indexes, &names[i]) {
                def.building = true;
                let ghost dv = def@;
                put_def(&mut self.catalog.geo_indexes, names[i].clone(), def);
                proof {
                    assert(self@.cat.geo_indexes =~= before.insert(n, dv));
                }
            }
            self.pending_geo_backfills.push(names[i].clone());
            proof {
                assert(self@.pending_geo_backfills =~= owed.push(n));
                let now = ns.take(i + 1);
                assert(now =~= ns.take(i as int).push(n));
                assert(now[i as int] == n);
                assert forall|x: Seq<char>| now.contains(x) <==> ns.take(i as int).contains(x) || x
                    == n by {
                    if now.contains(x) {
                        let p = choose|p: int| 0 <= p < now.len() && now[p] == x;
                        if p < i {
                            assert(ns.take(i as int)[p] == x);
                        }
                    }
                    if ns.take(i as int).contains(x) {
                        let p = choose|p: int| 0 <= p < i && ns.take(i as int)[p] == x;
                        assert(now[p] == x);
                    }
                }
                assert(marked_geo(v.cat.geo_indexes, now) =~= before.insert(
                    n,
                    GeoIndexView { building: true, ..before[n] },
                ));
                assert(v.pending_geo_backfills + now =~= (v.pending_geo_backfills + ns.take(
                    i as int,
                )).push(n));
            }
            i = i + 1;
        }
        proof {
            assert(ns.take(ns.len() as int) =~= ns);
        }
    }

    fn rebuild_vector_indexes(&mut self, names: &Vec<String>)
        requires
            old(self).wf(),
            forall|i: int|
                0 <= i < names@.len() ==> old(self)@.cat.vector_indexes.dom().contains(
                    (#[trigger] names@[i])@,
                ),
        ensures
            final(self).wf(),
            final(self)@ == (DbView {
                building_vectors: old(self)@.building_vectors.union(views(names@).to_set()),
                pending_vector_backfills: old(self)@.pending_vector_backfills + views(names@),
                ..old(self)@
            }),
    {
        let ghost v = self@;
        let ghost ns = views(names@);
        let mut i: usize = 0;
        proof {
            assert(v.building_vectors.union(ns.take(0).to_set()) =~= v.building_vectors);
            assert(v.pending_vector_backfills + ns.take(0) =~= v.pending_vector_backfills);
        }
        while i < names.len()
            invariant
                self.wf(),
                ns == views(names@),
                forall|i: int|
                    0 <= i < names@.len() ==> v.cat.vector_indexes.dom().contains(
                        (#[trigger] names@[i])@,
                    ),
                i <= names@.len(),
                self@ == (DbView {
                    building_vectors: v.building_vectors.union(ns.take(i as int).to_set()),
                    pending_vector_backfills: v.pending_vector_backfills + ns.take(i as int),
                    ..v
                }),
            decreases names@.len() - i,
        {
            let ghost n = ns[i as int];
            let ghost before = self@.building_vectors;
            proof {
                assert(v.cat.vector_indexes.dom().contains(names@[i as int]@));
            }
            let _ = self.rebuild_vector_index(names[i].as_str());
            proof {
                let now = ns.take(i + 1);
                let old_ns = ns.take(i as int);
                assert(now =~= old_ns.push(n));
                assert(now[i as int] == n);
                assert forall|x: Seq<char>| v.building_vectors.union(now.to_set()).contains(x)
                    <==> before.insert(n).contains(x) by {
                    if now.contains(x) {
                        let p = choose|p: int| 0 <= p < now.len() && now[p] == x;
                        if p < i {
                            assert(old_ns[p] == x);
                        }
                    }
                    if old_ns.contains(x) {
                        let p = choose|p: int| 0 <= p < i && old_ns[p] == x;
                        assert(now[p] == x);
                    }
                }
                assert(v.building_vectors.union(now.to_set()) =~= before.insert(n));
                assert(v.pending_vector_backfills + now =~= (v.pending_vector_backfills
                    + old_ns).push(n));
            }
            i = i + 1;
        }
        proof {
            assert(ns.take(ns.len() as int) =~= ns);
        }
    }

    /// Renames a column in the catalog, marks every secondary, vector and geo
    /// index on the table as owed its entries anew, and names the search indexes that
    /// are to be built anew.
    pub fn rename_column(&mut self, table: &str, from: &str, to: &str) -> (r: Vec<String>)
        requires
            old(self).wf(),
        ensures
            final(self).wf(),
            final(self)@ == after_rename(old(self)@, table@, from@, to@),
            views(r@) == names_defined_on::<SearchIndexDef>(
                final(self)@.cat.search_indexes,
                table@,
            ),
    {
        let ghost v = self@;
        self.rename_column_paths(table, from, to);
        let ghost cat = self@.cat;
        let secondary = names_on(&self.catalog.indexes, table);
        let vectors = names_on(&self.catalog.vector_indexes, table);
        let searches = names_on(&self.catalog.search_indexes, table);
        let geos = names_on(&self.catalog.geo_indexes, table);
        proof {
            lemma_names_defined_on::<IndexDef>(views(secondary@), cat.indexes, table@);
            lemma_names_defined_on::<VectorIndexDef>(views(vectors@), cat.vector_indexes, table@);
            lemma_names_defined_on::<SearchIndexDef>(
                views(searches@),
                cat.search_indexes,
                table@,
            );
            lemma_names_defined_on::<GeoIndexDef>(views(geos@), cat.geo_indexes, table@);
            assert forall|i: int| 0 <= i < geos@.len() implies cat.geo_indexes.dom().contains(
                (#[trigger] geos@[i])@,
            ) by {
                assert(views(geos@)[i] == geos@[i]@);
                assert(views(geos@).contains(geos@[i]@));
            }
            assert forall|i: int| 0 <= i < secondary@.len() implies cat.indexes.dom().contains(
                (#[trigger] secondary@[i])@,
            ) by {
                assert(views(secondary@)[i] == secondary@[i]@);
                assert(views(secondary@).contains(secondary@[i]@));
            }
            assert forall|i: int| 0 <= i < vectors@.len() implies cat.vector_indexes.dom().contains(
                (#[trigger] vectors@[i])@,
            ) by {
                assert(views(vectors@)[i] == vectors@[i]@);
                assert(views(vectors@).contains(vectors@[i]@));
            }
        }
        self.rebuild_indexes(&secondary);
        self.rebuild_vector_indexes(&vectors);
        self.rebuild_geo_indexes(&geos);
        proof {
            assert(marked_geo(cat.geo_indexes, views(geos@)) =~= rebuilding_geo(
                cat.geo_indexes,
                table@,
            )) by {
                assert forall|n: Seq<char>| cat.geo_indexes.dom().contains(n) implies views(
                    geos@,
                ).contains(n) == (cat.geo_indexes[n].table == table@) by {
                    assert(views(geos@).contains(n) <==> defined_on::<GeoIndexDef>(
                        cat.geo_indexes,
                        table@,
                        n,
                    ));
                }
            }
            assert(marked(cat.indexes, views(secondary@)) =~= rebuilding(cat.indexes, table@)) by {
                assert forall|n: Seq<char>| cat.indexes.dom().contains(n) implies views(
                    secondary@,
                ).contains(n) == (cat.indexes[n].table == table@) by {
                    assert(views(secondary@).contains(n) <==> defined_on::<IndexDef>(
                        cat.indexes,
                        table@,
                        n,
                    ));
                }
            }
        }
        searches
    }
}

/// A row with a column renamed.
pub open spec fn renamed_fields(m: Fields, from: Seq<char>, to: Seq<char>) -> Fields {
    if m.dom().contains(from) {
        m.remove(from).insert(to, m[from])
    } else {
        m
    }
}

/// What a rename does to one row: the old row is deleted where its key moved,
/// and the new one written.
pub struct RowRename {
    pub key: Vec<u8>,
    pub doc: Document,
    pub delete_old: bool,
}

/// What a rename does to one row; nothing where the row has no such column and
/// its key is unaffected.
pub open spec fn renamed_row<K: Fn(&Vec<&Value>) -> Vec<u8>>(
    k: K,
    pk: Seq<Seq<char>>,
    old_key: Seq<u8>,
    m: Fields,
    from: Seq<char>,
    to: Seq<char>,
) -> Result<Option<(Seq<u8>, Fields, bool)>, ErrorView> {
    let now = renamed_fields(m, from, to);
    match row_key(k, pk, now) {
        Err(e) => Err(e),
        Ok(key) => if !m.dom().contains(from) && key == old_key {
            Ok(None)
        } else {
            Ok(Some((key, now, key != old_key)))
        },
    }
}

/// What a rename does to one row of a table whose key columns, renamed already,
/// are `pk`.
pub fn rename_row<K: Fn(&Vec<&Value>) -> Vec<u8>>(
    k: &K,
    pk: &Vec<String>,
    old_key: &Vec<u8>,
    doc: &Document,
    from: &str,
    to: &str,
) -> (r: Result<Option<RowRename>, EngineError>)
    requires
        is_encoder(*k),
        doc_wf(*doc),
    ensures
        match r {
            Ok(None) => renamed_row(*k, views(pk@), old_key@, doc_view(*doc), from@, to@) == Ok::<
                Option<(Seq<u8>, Fields, bool)>,
                ErrorView,
            >(None),
            Ok(Some(u)) => renamed_row(*k, views(pk@), old_key@, doc_view(*doc), from@, to@)
                == Ok::<Option<(Seq<u8>, Fields, bool)>, ErrorView>(
                Some((u.key@, doc_view(u.doc), u.delete_old)),
            ),
            Err(e) => renamed_row(*k, views(pk@), old_key@, doc_view(*doc), from@, to@) == Err::<
                Option<(Seq<u8>, Fields, bool)>,
                ErrorView,
            >(e@),
        },
{
    let mut now = copy_document(doc);
    let moved: bool = match now.take_field(from) {
        Some(v) => {
            now.put_field(to.to_owned(), v);
            true
        },
        None => {
            proof {
                assert(doc_view(now) =~= doc_view(*doc));
            }
            false
        },
    };
    match primary_key_bytes(pk, &now, k) {
        Err(e) => Err(e),
        Ok(key) => {
            let same: bool = same_bytes(key.as_slice(), old_key.as_slice());
            if !moved && same {
                Ok(None)
            } else {
                Ok(Some(RowRename { key, doc: now, delete_old: !same }))
            }
        },
    }
}

/// Renaming a column and renaming it back leaves a row as it was, where the
/// new name was free.
pub proof fn rename_column_back(m: Fields, from: Seq<char>, to: Seq<char>)
    requires
        from != to,
        !m.dom().contains(to),
    ensures
        renamed_fields(renamed_fields(m, from, to), to, from) == m,
{
    assert(renamed_fields(renamed_fields(m, from, to), to, from) =~= m);
}

/// What an `ALTER TABLE` does.
pub open spec fn alter_step(v: DbView, name: Seq<char>, action: AlterAction) -> (
    Result<(), ErrorView>,
    DbView,
) {
    match alter_kind(v.cat, name, action) {
        Err(e) => (Err(e), v),
        Ok(AlterKind::SetTimeseriesOptions) => ts_options_step(
            v,
            name,
            option_views(action->options@),
        ),
        Ok(AlterKind::RenameTable) => rename_table_step(v, name, action->new_name@),
        Ok(AlterKind::RenameColumn) => (
            Ok(()),
            after_rename(v, name, action->from@, action->to@),
        ),
        Ok(AlterKind::SetTableOptions) => table_options_step(
            v,
            name,
            option_views(action->options@),
        ),
    }
}

impl Database {
    /// `ALTER TABLE`: what it does to the catalog. Names the search indexes that
    /// are to be built anew, which only a renamed column asks for.
    pub fn alter_table(&mut self, name: &str, action: &AlterAction) -> (r: Result<
        Vec<String>,
        EngineError,
    >)
        requires
            old(self).wf(),
        ensures
            final(self).wf(),
            final(self)@ == alter_step(old(self)@, name@, *action).1,
            match r {
                Ok(anew) => alter_step(old(self)@, name@, *action).0 is Ok && views(anew@) == (
                if alter_kind(old(self)@.cat, name@, *action) == Ok::<AlterKind, ErrorView>(
                    AlterKind::RenameColumn,
                ) {
                    names_defined_on::<SearchIndexDef>(final(self)@.cat.search_indexes, name@)
                } else {
                    Seq::empty()
                }),
                Err(e) => alter_step(old(self)@, name@, *action).0 == Err::<(), ErrorView>(e@),
            },
    {
        let kind = match self.plan_alter_table(name, action) {
            Err(e) => {
                return Err(e);
            },
            Ok(kind) => kind,
        };
        let done = match action {
            AlterAction::RenameTable { new_name } => self.rename_table(name, new_name.as_str()),
            AlterAction::RenameColumn { from, to } => {
                return Ok(self.rename_column(name, from.as_str(), to.as_str()));
            },
            AlterAction::SetOptions { options } => match kind {
                AlterKind::SetTimeseriesOptions => self.set_ts_table_options(name, options),
                _ => self.set_table_options(name, options),
            },
        };
        match done {
            Err(e) => Err(e),
            Ok(()) => {
                let none: Vec<String> = Vec::new();
                proof {
                    assert(views(none@) =~= Seq::<Seq<char>>::empty());
                }
                Ok(none)
            },
        }
    }
}

} // verus!
