//! Creating, dropping and backfilling secondary, global and geo indexes under
//! last-writer-wins.

use vstd::prelude::*;

use crate::catalog::advances;
use crate::catalog::def_of;
use crate::catalog::has_def;
use crate::catalog::put_def;
use crate::catalog::record_schema;
use crate::catalog::schema_advances;
use crate::catalog::take_def;
use crate::catalog::CatalogView;
use crate::catalog::GeoIndexDef;
use crate::catalog::GeoIndexView;
use crate::catalog::IndexDef;
use crate::catalog::IndexView;
use crate::catalog::TableDef;
use crate::catalog::TableView;
use crate::database::verdict;
use crate::database::without_name;
use crate::database::Database;
use crate::database::DbView;
use crate::database::DdlOutcome;
use crate::ddl_table::stamped;
use crate::error::unsupported;
use crate::error::EngineError;
use crate::error::ErrorView;
use crate::hlc::Hlc;
use crate::namespace::gidx_table;
use crate::namespace::gidx_table_name;
use crate::text::cat;
use crate::text::ends_with;
use crate::text::has_suffix;
use crate::text::str_eq;
use crate::text::views;

verus! {

/// Whether an index path fans out over the elements of an array.
pub open spec fn is_multikey(path: Seq<char>) -> bool {
    has_suffix(path, "[]"@)
}

/// Whether more than one path fans out.
pub open spec fn several_multikey(paths: Seq<Seq<char>>) -> bool {
    exists|i: int, j: int|
        0 <= i < j < paths.len() && is_multikey(#[trigger] paths[i]) && is_multikey(
            #[trigger] paths[j],
        )
}

/// The definition of a global index's entry table.
pub open spec fn entry_table_view() -> TableView {
    TableView {
        primary_key: seq!["k"@],
        ttl_ms: None,
        memory: false,
        replication: None,
        pinned_nodes: Seq::empty(),
        witness: true,
        prev_placement: None,
    }
}

/// `CREATE INDEX`: what it answers and the database it leaves.
pub open spec fn create_index_step(
    v: DbView,
    name: Seq<char>,
    table: Seq<char>,
    paths: Seq<Seq<char>>,
    if_not_exists: bool,
    global: bool,
    ready: bool,
    hlc: Hlc,
) -> (Result<DdlOutcome, ErrorView>, DbView) {
    let key = "i:"@ + name;
    let cat = v.cat;
    if !cat.tables.dom().contains(table) {
        (Err(ErrorView::TableNotFound(table)), v)
    } else if !advances(cat.versions, key, hlc) {
        (Ok(DdlOutcome::Stale), v)
    } else if cat.indexes.dom().contains(name) {
        if if_not_exists {
            let known = cat.indexes[name];
            let settled = if global && ready && known.global {
                IndexView { building: false, ..known }
            } else {
                known
            };
            (
                Ok(DdlOutcome::Recorded),
                DbView {
                    cat: stamped(
                        CatalogView { indexes: cat.indexes.insert(name, settled), ..cat },
                        key,
                        hlc,
                        false,
                    ),
                    ..v
                },
            )
        } else {
            (Err(ErrorView::IndexExists(name)), v)
        }
    } else if cat.tables[table].memory {
        (Err(ErrorView::Unsupported("indexes on memory tables are not supported"@)), v)
    } else if several_multikey(paths) {
        (Err(ErrorView::Unsupported("at most one multikey ([]) component per index"@)), v)
    } else if global {
        let entries = gidx_table_name(name);
        (
            Ok(DdlOutcome::Applied),
            DbView {
                cat: stamped(
                    CatalogView {
                        tables: if cat.tables.dom().contains(entries) {
                            cat.tables
                        } else {
                            cat.tables.insert(entries, entry_table_view())
                        },
                        indexes: cat.indexes.insert(
                            name,
                            IndexView { table, paths, building: !ready, global: true },
                        ),
                        ..cat
                    },
                    key,
                    hlc,
                    false,
                ),
                ..v
            },
        )
    } else {
        (
            Ok(DdlOutcome::Applied),
            DbView {
                cat: stamped(
                    CatalogView {
                        indexes: cat.indexes.insert(
                            name,
                            IndexView { table, paths, building: true, global: false },
                        ),
                        ..cat
                    },
                    key,
                    hlc,
                    false,
                ),
                pending_backfills: v.pending_backfills.push(name),
                ..v
            },
        )
    }
}

/// `DROP INDEX`: what it answers and the catalog it leaves. A global index
/// takes its entry table with it.
pub open spec fn drop_index_step(v: CatalogView, name: Seq<char>, if_exists: bool, hlc: Hlc) -> (
    Result<DdlOutcome, ErrorView>,
    CatalogView,
) {
    let key = "i:"@ + name;
    if !advances(v.versions, key, hlc) {
        (Ok(DdlOutcome::Stale), v)
    } else if !v.indexes.dom().contains(name) {
        if if_exists {
            (Ok(DdlOutcome::Recorded), stamped(v, key, hlc, true))
        } else {
            (Err(ErrorView::IndexNotFound(name)), v)
        }
    } else {
        let without = CatalogView { indexes: v.indexes.remove(name), ..v };
        if v.indexes[name].global {
            let entries = gidx_table_name(name);
            (
                Ok(DdlOutcome::Applied),
                stamped(
                    stamped(
                        CatalogView { tables: v.tables.remove(entries), ..without },
                        "t:"@ + entries,
                        hlc,
                        true,
                    ),
                    key,
                    hlc,
                    true,
                ),
            )
        } else {
            (Ok(DdlOutcome::Applied), stamped(without, key, hlc, true))
        }
    }
}

/// `CREATE GEO INDEX`: what it answers and the database it leaves. A newer
/// differing definition replaces the old one, which goes first.
pub open spec fn create_geo_index_step(
    v: DbView,
    name: Seq<char>,
    table: Seq<char>,
    path: Seq<char>,
    if_not_exists: bool,
    hlc: Hlc,
) -> (Result<DdlOutcome, ErrorView>, DbView) {
    let key = "g:"@ + name;
    let cat = v.cat;
    if !cat.tables.dom().contains(table) {
        (Err(ErrorView::TableNotFound(table)), v)
    } else if !advances(cat.versions, key, hlc) {
        (Ok(DdlOutcome::Stale), v)
    } else if cat.geo_indexes.dom().contains(name) && !if_not_exists {
        (Err(ErrorView::IndexExists(name)), v)
    } else if cat.geo_indexes.dom().contains(name) && cat.geo_indexes[name].table == table
        && cat.geo_indexes[name].path == path {
        (Ok(DdlOutcome::Recorded), DbView { cat: stamped(cat, key, hlc, false), ..v })
    } else {
        let replaced = cat.geo_indexes.dom().contains(name);
        let cleared = if replaced {
            DbView {
                cat: CatalogView { geo_indexes: cat.geo_indexes.remove(name), ..cat },
                pending_geo_backfills: v.pending_geo_backfills.filter(|n: Seq<char>| n != name),
                ..v
            }
        } else {
            v
        };
        if cat.tables[table].memory {
            (
                Err(ErrorView::Unsupported("geo indexes on memory tables are not supported"@)),
                cleared,
            )
        } else {
            (
                Ok(
                    if replaced {
                        DdlOutcome::Replaced
                    } else {
                        DdlOutcome::Applied
                    },
                ),
                DbView {
                    cat: stamped(
                        CatalogView {
                            geo_indexes: cat.geo_indexes.insert(
                                name,
                                GeoIndexView { table, path, building: true },
                            ),
                            ..cat
                        },
                        key,
                        hlc,
                        false,
                    ),
                    pending_geo_backfills: cleared.pending_geo_backfills.push(name),
                    ..v
                },
            )
        }
    }
}

/// `DROP GEO INDEX`: what it answers and the database it leaves.
pub open spec fn drop_geo_index_step(v: DbView, name: Seq<char>, if_exists: bool, hlc: Hlc) -> (
    Result<DdlOutcome, ErrorView>,
    DbView,
) {
    let key = "g:"@ + name;
    let known = v.cat.geo_indexes.dom().contains(name);
    if !advances(v.cat.versions, key, hlc) {
        (Ok(DdlOutcome::Stale), v)
    } else if !known && !if_exists {
        (Err(ErrorView::IndexNotFound(name)), v)
    } else {
        (
            Ok(
                if known {
                    DdlOutcome::Applied
                } else {
                    DdlOutcome::Recorded
                },
            ),
            DbView {
                cat: stamped(
                    CatalogView { geo_indexes: v.cat.geo_indexes.remove(name), ..v.cat },
                    key,
                    hlc,
                    true,
                ),
                pending_geo_backfills: v.pending_geo_backfills.filter(|n: Seq<char>| n != name),
                ..v
            },
        )
    }
}

/// Whether more than one of the paths fans out over an array.
fn has_several_multikey(paths: &Vec<String>) -> (r: bool)
    ensures
        r == several_multikey(views(paths@)),
{
    let mut seen: bool = false;
    let mut i: usize = 0;
    let ghost vs = views(paths@);
    while i < paths.len()
        invariant
            i <= paths@.len(),
            vs == views(paths@),
            seen == exists|k: int| 0 <= k < i && is_multikey(#[trigger] vs[k]),
            forall|a: int, b: int|
                0 <= a < b < i ==> !(is_multikey(#[trigger] vs[a]) && is_multikey(
                    #[trigger] vs[b],
                )),
        decreases paths@.len() - i,
    {
        if ends_with(paths[i].as_str(), "[]") {
            assert(is_multikey(vs[i as int]));
            if seen {
                return true;
            }
            seen = true;
        }
        i = i + 1;
    }
    false
}

impl Database {
    /// `CREATE INDEX` stamped `hlc`. A local index starts out `building`, with
    /// its backfill owed; a global one gets a table for its entries, and is
    /// ready at once where the statement says its entries are.
    pub fn create_index(
        &mut self,
        name: &str,
        table: &str,
        paths: Vec<String>,
        if_not_exists: bool,
        global: bool,
        ready: bool,
        hlc: Hlc,
    ) -> (r: Result<DdlOutcome, EngineError>)
        requires
            old(self).wf(),
        ensures
            final(self).wf(),
            ({
                let step = create_index_step(
                    old(self)@,
                    name@,
                    table@,
                    views(paths@),
                    if_not_exists,
                    global,
                    ready,
                    hlc,
                );
                verdict(r) == step.0 && final(self)@ == step.1
            }),
    {
        let table_owned = table.to_owned();
        let memory: bool = match def_of(&self.catalog.tables, &table_owned) {
            None => {
                return Err(EngineError::TableNotFound(table_owned));
            },
            Some(t) => t.memory,
        };
        let key = cat("i:", name);
        if !schema_advances(&self.catalog.schema_versions, &key, hlc) {
            return Ok(DdlOutcome::Stale);
        }
        let name_owned = name.to_owned();
        if has_def(&self.catalog.indexes, &name_owned) {
            if !if_not_exists {
                return Err(EngineError::IndexExists(name_owned));
            }
            let ghost before = self@.cat.indexes;
            if let Some(mut def) = take_def(&mut self.catalog.indexes, &name_owned) {
                if global && ready && def.global && def.building {
                    def.building = false;
                }
                let ghost dv = def@;
                put_def(&mut self.catalog.indexes, name_owned, def);
                proof {
                    assert(self@.cat.indexes =~= before.insert(name@, dv));
                }
            }
            record_schema(&mut self.catalog.schema_versions, key, hlc, false);
            return Ok(DdlOutcome::Recorded);
        }
        if memory {
            return Err(unsupported("indexes on memory tables are not supported"));
        }
        if has_several_multikey(&paths) {
            return Err(unsupported("at most one multikey ([]) component per index"));
        }
        if global {
            let entries = gidx_table(name);
            if !has_def(&self.catalog.tables, &entries) {
                let mut pk: Vec<String> = Vec::new();
                pk.push("k".to_owned());
                let def = TableDef {
                    primary_key: pk,
                    ttl_ms: None,
                    memory: false,
                    replication: None,
                    pinned_nodes: Vec::new(),
                    witness: true,
                    prev_placement: None,
                };
                proof {
                    assert(def@.primary_key =~= seq!["k"@]);
                    assert(def@.pinned_nodes =~= Seq::<Seq<char>>::empty());
                }
                put_def(&mut self.catalog.tables, entries, def);
            }
            put_def(
                &mut self.catalog.indexes,
                name_owned,
                IndexDef { table: table_owned, paths, building: !ready, global: true },
            );
            record_schema(&mut self.catalog.schema_versions, key, hlc, false);
            return Ok(DdlOutcome::Applied);
        }
        put_def(
            &mut self.catalog.indexes,
            name_owned,
            IndexDef { table: table_owned, paths, building: true, global: false },
        );
        record_schema(&mut self.catalog.schema_versions, key, hlc, false);
        let ghost owed = self@.pending_backfills;
        self.pending_backfills.push(name.to_owned());
        proof {
            assert(self@.pending_backfills =~= owed.push(name@));
        }
        Ok(DdlOutcome::Applied)
    }

    /// `DROP INDEX` stamped `hlc`.
    pub fn drop_index(&mut self, name: &str, if_exists: bool, hlc: Hlc) -> (r: Result<
        DdlOutcome,
        EngineError,
    >)
        requires
            old(self).wf(),
        ensures
            final(self).wf(),
            ({
                let step = drop_index_step(old(self)@.cat, name@, if_exists, hlc);
                verdict(r) == step.0 && final(self)@ == (DbView { cat: step.1, ..old(self)@ })
            }),
    {
        let key = cat("i:", name);
        if !schema_advances(&self.catalog.schema_versions, &key, hlc) {
            return Ok(DdlOutcome::Stale);
        }
        let name_owned = name.to_owned();
        let ghost before = self@.cat.indexes;
        match take_def(&mut self.catalog.indexes, &name_owned) {
            None => {
                proof {
                    assert(self@.cat.indexes =~= before);
                }
                if !if_exists {
                    return Err(EngineError::IndexNotFound(name_owned));
                }
                record_schema(&mut self.catalog.schema_versions, key, hlc, true);
                Ok(DdlOutcome::Recorded)
            },
            Some(def) => {
                if def.global {
                    let entries = gidx_table(name);
                    take_def(&mut self.catalog.tables, &entries);
                    record_schema(
                        &mut self.catalog.schema_versions,
                        cat("t:", entries.as_str()),
                        hlc,
                        true,
                    );
                }
                record_schema(&mut self.catalog.schema_versions, key, hlc, true);
                Ok(DdlOutcome::Applied)
            },
        }
    }

    /// `CREATE GEO INDEX` stamped `hlc`.
    pub fn create_geo_index(
        &mut self,
        name: &str,
        table: &str,
        path: &str,
        if_not_exists: bool,
        hlc: Hlc,
    ) -> (r: Result<DdlOutcome, EngineError>)
        requires
            old(self).wf(),
        ensures
            final(self).wf(),
            ({
                let step = create_geo_index_step(
                    old(self)@,
                    name@,
                    table@,
                    path@,
                    if_not_exists,
                    hlc,
                );
                verdict(r) == step.0 && final(self)@ == step.1
            }),
    {
        let table_owned = table.to_owned();
        let memory: bool = match def_of(&self.catalog.tables, &table_owned) {
            None => {
                return Err(EngineError::TableNotFound(table_owned));
            },
            Some(t) => t.memory,
        };
        let key = cat("g:", name);
        if !schema_advances(&self.catalog.schema_versions, &key, hlc) {
            return Ok(DdlOutcome::Stale);
        }
        let name_owned = name.to_owned();
        let mut replaced: bool = false;
        let ghost start = self@;
        if let Some(known) = def_of(&self.catalog.geo_indexes, &name_owned) {
            if !if_not_exists {
                return Err(EngineError::IndexExists(name_owned));
            }
            if str_eq(known.table.as_str(), table) && str_eq(known.path.as_str(), path) {
                record_schema(&mut self.catalog.schema_versions, key, hlc, false);
                return Ok(DdlOutcome::Recorded);
            }
            replaced = true;
        }
        if replaced {
            take_def(&mut self.catalog.geo_indexes, &name_owned);
            let left = without_name(&self.pending_geo_backfills, name);
            self.pending_geo_backfills = left;
        }
        if memory {
            return Err(unsupported("geo indexes on memory tables are not supported"));
        }
        let def = GeoIndexDef { table: table_owned, path: path.to_owned(), building: true };
        let ghost dv = def@;
        put_def(&mut self.catalog.geo_indexes, name_owned, def);
        proof {
            assert(self@.cat.geo_indexes =~= start.cat.geo_indexes.insert(name@, dv));
        }
        record_schema(&mut self.catalog.schema_versions, key, hlc, false);
        let ghost owed = self@.pending_geo_backfills;
        self.pending_geo_backfills.push(name.to_owned());
        proof {
            assert(self@.pending_geo_backfills =~= owed.push(name@));
        }
        Ok(
            if replaced {
                DdlOutcome::Replaced
            } else {
                DdlOutcome::Applied
            },
        )
    }

    /// `DROP GEO INDEX` stamped `hlc`.
    pub fn drop_geo_index(&mut self, name: &str, if_exists: bool, hlc: Hlc) -> (r: Result<
        DdlOutcome,
        EngineError,
    >)
        requires
            old(self).wf(),
        ensures
            final(self).wf(),
            ({
                let step = drop_geo_index_step(old(self)@, name@, if_exists, hlc);
                verdict(r) == step.0 && final(self)@ == step.1
            }),
    {
        let key = cat("g:", name);
        if !schema_advances(&self.catalog.schema_versions, &key, hlc) {
            return Ok(DdlOutcome::Stale);
        }
        let name_owned = name.to_owned();
        let known: bool = has_def(&self.catalog.geo_indexes, &name_owned);
        if !known && !if_exists {
            return Err(EngineError::IndexNotFound(name_owned));
        }
        take_def(&mut self.catalog.geo_indexes, &name_owned);
        let left = without_name(&self.pending_geo_backfills, name);
        self.pending_geo_backfills = left;
        record_schema(&mut self.catalog.schema_versions, key, hlc, true);
        Ok(
            if known {
                DdlOutcome::Applied
            } else {
                DdlOutcome::Recorded
            },
        )
    }

    /// Marks a global index ready once its backfill is through, under a stamp
    /// that lets the readiness reach nodes that missed it. Nothing happens to
    /// an index that is unknown, local, or ready already.
    pub fn finish_global_backfill(&mut self, name: &str, hlc: Hlc) -> (r: bool)
        requires
            old(self).wf(),
        ensures
            final(self).wf(),
            r == awaits_global_backfill(old(self)@.cat, name@),
            !r ==> final(self)@ == old(self)@,
            r ==> final(self)@ == (DbView {
                cat: stamped(
                    CatalogView {
                        indexes: old(self)@.cat.indexes.insert(
                            name@,
                            IndexView { building: false, ..old(self)@.cat.indexes[name@] },
                        ),
                        ..old(self)@.cat
                    },
                    "i:"@ + name@,
                    hlc,
                    false,
                ),
                ..old(self)@
            }),
    {
        let name_owned = name.to_owned();
        let wanted: bool = match def_of(&self.catalog.indexes, &name_owned) {
            Some(d) => d.global && d.building,
            None => false,
        };
        if !wanted {
            return false;
        }
        let ghost before = self@.cat.indexes;
        if let Some(mut def) = take_def(&mut self.catalog.indexes, &name_owned) {
            def.building = false;
            let ghost dv = def@;
            put_def(&mut self.catalog.indexes, name_owned, def);
            proof {
                assert(self@.cat.indexes =~= before.insert(name@, dv));
            }
        }
        record_schema(&mut self.catalog.schema_versions, cat("i:", name), hlc, false);
        true
    }

    /// Marks a local index's backfill as through: the index serves from now on.
    pub fn finish_index_backfill(&mut self, name: &str)
        requires
            old(self).wf(),
        ensures
            final(self).wf(),
            final(self)@ == (DbView {
                cat: CatalogView {
                    indexes: settled_index(old(self)@.cat.indexes, name@),
                    ..old(self)@.cat
                },
                ..old(self)@
            }),
    {
        let name_owned = name.to_owned();
        let ghost before = self@.cat.indexes;
        if let Some(mut def) = take_def(&mut self.catalog.indexes, &name_owned) {
            def.building = false;
            let ghost dv = def@;
            put_def(&mut self.catalog.indexes, name_owned, def);
            proof {
                assert(self@.cat.indexes =~= before.insert(name@, dv));
            }
        } else {
            proof {
                assert(self@.cat.indexes =~= before);
            }
        }
    }

    /// Marks a geo index's backfill as through.
    pub fn finish_geo_backfill(&mut self, name: &str)
        requires
            old(self).wf(),
        ensures
            final(self).wf(),
            final(self)@ == (DbView {
                cat: CatalogView {
                    geo_indexes: if old(self)@.cat.geo_indexes.dom().contains(name@) {
                        old(self)@.cat.geo_indexes.insert(
                            name@,
                            GeoIndexView { building: false, ..old(self)@.cat.geo_indexes[name@] },
                        )
                    } else {
                        old(self)@.cat.geo_indexes
                    },
                    ..old(self)@.cat
                },
                ..old(self)@
            }),
    {
        let name_owned = name.to_owned();
        let ghost before = self@.cat.geo_indexes;
        if let Some(mut def) = take_def(&mut self.catalog.geo_indexes, &name_owned) {
            def.building = false;
            let ghost dv = def@;
            put_def(&mut self.catalog.geo_indexes, name_owned, def);
            proof {
                assert(self@.cat.geo_indexes =~= before.insert(name@, dv));
            }
        } else {
            proof {
                assert(self@.cat.geo_indexes =~= before);
            }
        }
    }
}

/// Whether `name` is a global index whose backfill is not through.
pub open spec fn awaits_global_backfill(v: CatalogView, name: Seq<char>) -> bool {
    v.indexes.dom().contains(name) && v.indexes[name].global && v.indexes[name].building
}

/// The indexes with `name`, where it exists, no longer building.
pub open spec fn settled_index(m: Map<Seq<char>, IndexView>, name: Seq<char>) -> Map<
    Seq<char>,
    IndexView,
> {
    if m.dom().contains(name) {
        m.insert(name, IndexView { building: false, ..m[name] })
    } else {
        m
    }
}

} // verus!
