//! Creating, tuning and dropping search indexes under last-writer-wins.

use vstd::prelude::*;

use crate::catalog::advances;
use crate::catalog::def_of;
use crate::catalog::has_def;
use crate::catalog::option_views;
use crate::catalog::put_def;
use crate::catalog::record_schema;
use crate::catalog::schema_advances;
use crate::catalog::take_def;
use crate::catalog::CatalogView;
use crate::catalog::SearchIndexDef;
use crate::catalog::SearchIndexView;
use crate::database::options_without;
use crate::database::same_options;
use crate::database::same_strings;
use crate::database::verdict;
use crate::database::Database;
use crate::database::DbView;
use crate::database::DdlOutcome;
use crate::ddl_table::stamped;
use crate::error::EngineError;
use crate::error::ErrorView;
use crate::hlc::Hlc;
use crate::text::cat;
use crate::text::cat3;
use crate::text::ends_with;
use crate::text::has_suffix;
use crate::text::str_eq;
use crate::text::views;

verus! {

/// `CREATE SEARCH INDEX`.
pub struct CreateSearchIndex {
    pub name: String,
    pub table: String,
    pub paths: Vec<String>,
    pub options: Vec<(String, String)>,
    pub if_not_exists: bool,
}

/// What a `CREATE SEARCH INDEX` has to be done to the index data.
#[derive(Clone, Copy, Debug, PartialEq, Eq, Structural)]
pub enum SearchWork {
    /// An older statement: put a missing live index right, nothing else.
    Stale,
    /// The same definition: put a missing live index right.
    Heal,
    /// A newer differing definition: replace it and rebuild.
    Rebuild,
    /// A new index: validate the declaration and build it.
    Build,
}

/// The definition that a statement asks for.
pub open spec fn asked_search(c: CreateSearchIndex) -> SearchIndexView {
    SearchIndexView {
        table: c.table@,
        paths: views(c.paths@),
        options: option_views(c.options@),
    }
}

/// What a `CREATE SEARCH INDEX` calls for, or why it is refused.
pub open spec fn search_work(v: CatalogView, c: CreateSearchIndex, hlc: Hlc) -> Result<
    SearchWork,
    ErrorView,
> {
    let name = c.name@;
    if !v.tables.dom().contains(c.table@) {
        Err(ErrorView::TableNotFound(c.table@))
    } else if !advances(v.versions, "s:"@ + name, hlc) {
        Ok(SearchWork::Stale)
    } else if !v.search_indexes.dom().contains(name) {
        Ok(SearchWork::Build)
    } else if !c.if_not_exists {
        Err(ErrorView::IndexExists(name))
    } else if v.search_indexes[name] != asked_search(c) {
        Ok(SearchWork::Rebuild)
    } else {
        Ok(SearchWork::Heal)
    }
}

/// `CREATE SEARCH INDEX`: what it answers and the catalog it leaves, given how
/// the work on the index data came out. A replaced definition stays replaced
/// even where its rebuild failed; the version moves only on success.
pub open spec fn create_search_index_step(
    v: CatalogView,
    c: CreateSearchIndex,
    work: Result<(), ErrorView>,
    hlc: Hlc,
) -> (Result<DdlOutcome, ErrorView>, CatalogView) {
    let name = c.name@;
    let key = "s:"@ + name;
    let replaced = CatalogView {
        search_indexes: v.search_indexes.insert(name, asked_search(c)),
        ..v
    };
    match search_work(v, c, hlc) {
        Err(e) => (Err(e), v),
        Ok(SearchWork::Stale) => match work {
            Err(e) => (Err(e), v),
            Ok(_) => (Ok(DdlOutcome::Stale), v),
        },
        Ok(SearchWork::Heal) => match work {
            Err(e) => (Err(e), v),
            Ok(_) => (Ok(DdlOutcome::Recorded), stamped(v, key, hlc, false)),
        },
        Ok(SearchWork::Rebuild) => match work {
            Err(e) => (Err(e), replaced),
            Ok(_) => (Ok(DdlOutcome::Replaced), stamped(replaced, key, hlc, false)),
        },
        Ok(SearchWork::Build) => match work {
            Err(e) => (Err(e), v),
            Ok(_) => (Ok(DdlOutcome::Applied), stamped(replaced, key, hlc, false)),
        },
    }
}

/// `CREATE SEARCH INDEX` as a step of the database: an index whose data was
/// built anew has no catch-up left.
pub open spec fn search_index_created(
    v: DbView,
    c: CreateSearchIndex,
    work: Result<(), ErrorView>,
    hlc: Hlc,
) -> (Result<DdlOutcome, ErrorView>, DbView) {
    let step = create_search_index_step(v.cat, c, work, hlc);
    let built = step.0 == Ok::<DdlOutcome, ErrorView>(DdlOutcome::Applied) || step.0 == Ok::<
        DdlOutcome,
        ErrorView,
    >(DdlOutcome::Replaced);
    (
        step.0,
        DbView {
            cat: step.1,
            building_searches: if built {
                v.building_searches.remove(c.name@)
            } else {
                v.building_searches
            },
            ..v
        },
    )
}

/// `DROP SEARCH INDEX`: what it answers and the catalog it leaves.
pub open spec fn drop_search_index_step(v: CatalogView, name: Seq<char>, if_exists: bool, hlc: Hlc) -> (
    Result<DdlOutcome, ErrorView>,
    CatalogView,
) {
    let key = "s:"@ + name;
    let known = v.search_indexes.dom().contains(name);
    if !advances(v.versions, key, hlc) {
        (Ok(DdlOutcome::Stale), v)
    } else if !known && !if_exists {
        (Err(ErrorView::IndexNotFound(name)), v)
    } else {
        (
            Ok(
                if known {
                    DdlOutcome::Applied
                } else {
                    DdlOutcome::Recorded
                },
            ),
            stamped(
                CatalogView { search_indexes: v.search_indexes.remove(name), ..v },
                key,
                hlc,
                true,
            ),
        )
    }
}

/// Whether an option acts at query time and can change without reindexing.
pub open spec fn query_time(key: Seq<char>) -> bool {
    ||| key == "synonyms"@
    ||| key == "refresh_ms"@
    ||| has_suffix(key, ".search_analyzer"@)
    ||| has_suffix(key, ".boost"@)
}

/// The first option that cannot change in place.
pub open spec fn index_time_option(os: Seq<(Seq<char>, Seq<char>)>) -> Option<Seq<char>>
    decreases os.len(),
{
    if os.len() == 0 {
        None
    } else if !query_time(os[0].0) {
        Some(os[0].0)
    } else {
        index_time_option(os.drop_first())
    }
}

/// The message for an option that needs the index rebuilt.
pub open spec fn index_time_message(key: Seq<char>) -> Seq<char> {
    "'"@ + key
        + "' is an index-time option — DROP and re-CREATE the index to change it (ALTER SET takes synonyms, refresh_ms, <col>.search_analyzer, <col>.boost)"@
}

/// Declared options with the altered ones in place of their old values: each
/// altered key loses its old entry and goes to the end.
pub open spec fn merged_options(
    declared: Seq<(Seq<char>, Seq<char>)>,
    altered: Seq<(Seq<char>, Seq<char>)>,
) -> Seq<(Seq<char>, Seq<char>)>
    decreases altered.len(),
{
    if altered.len() == 0 {
        declared
    } else {
        let o = altered.last();
        merged_options(declared, altered.drop_last()).filter(
            |x: (Seq<char>, Seq<char>)| x.0 != o.0,
        ).push(o)
    }
}

/// `ALTER SEARCH INDEX`: what it answers and the catalog it leaves, given
/// whether the merged declaration is valid.
pub open spec fn alter_search_index_step(
    v: CatalogView,
    name: Seq<char>,
    options: Seq<(Seq<char>, Seq<char>)>,
    declared: Result<(), ErrorView>,
    hlc: Hlc,
) -> (Result<DdlOutcome, ErrorView>, CatalogView) {
    let key = "s:"@ + name;
    match index_time_option(options) {
        Some(o) => (Err(ErrorView::Type(index_time_message(o))), v),
        None => if !advances(v.versions, key, hlc) {
            (Ok(DdlOutcome::Stale), v)
        } else if !v.search_indexes.dom().contains(name) {
            (Err(ErrorView::IndexNotFound(name)), v)
        } else {
            match declared {
                Err(e) => (Err(e), v),
                Ok(_) => {
                    let known = v.search_indexes[name];
                    let tuned = SearchIndexView {
                        options: merged_options(known.options, options),
                        ..known
                    };
                    (
                        Ok(DdlOutcome::Applied),
                        stamped(
                            CatalogView {
                                search_indexes: v.search_indexes.insert(name, tuned),
                                ..v
                            },
                            key,
                            hlc,
                            false,
                        ),
                    )
                },
            }
        },
    }
}

/// Declared options with the altered ones in place of their old values.
pub fn merge_options(declared: &Vec<(String, String)>, altered: &Vec<(String, String)>) -> (r: Vec<
    (String, String),
>)
    ensures
        option_views(r@) == merged_options(option_views(declared@), option_views(altered@)),
{
    let ghost d = option_views(declared@);
    let ghost a = option_views(altered@);
    let mut out: Vec<(String, String)> = Vec::new();
    let mut j: usize = 0;
    while j < declared.len()
        invariant
            j <= declared@.len(),
            d == option_views(declared@),
            option_views(out@) == d.take(j as int),
        decreases declared@.len() - j,
    {
        let ghost before = option_views(out@);
        out.push((declared[j].0.clone(), declared[j].1.clone()));
        proof {
            assert(option_views(out@) =~= before.push(d[j as int]));
            assert(d.take(j + 1) =~= d.take(j as int).push(d[j as int]));
        }
        j = j + 1;
    }
    proof {
        assert(d.take(d.len() as int) =~= d);
        assert(a.take(0) =~= Seq::<(Seq<char>, Seq<char>)>::empty());
    }
    let mut i: usize = 0;
    while i < altered.len()
        invariant
            i <= altered@.len(),
            a == option_views(altered@),
            option_views(out@) == merged_options(d, a.take(i as int)),
        decreases altered@.len() - i,
    {
        out = options_without(&out, altered[i].0.as_str());
        let ghost kept = option_views(out@);
        out.push((altered[i].0.clone(), altered[i].1.clone()));
        proof {
            assert(option_views(out@) =~= kept.push(a[i as int]));
            assert(a.take(i + 1).drop_last() =~= a.take(i as int));
            assert(a.take(i + 1).last() == a[i as int]);
        }
        i = i + 1;
    }
    proof {
        assert(a.take(a.len() as int) =~= a);
    }
    out
}

fn is_query_time(key: &str) -> (r: bool)
    ensures
        r == query_time(key@),
{
    str_eq(key, "synonyms") || str_eq(key, "refresh_ms") || ends_with(key, ".search_analyzer")
        || ends_with(key, ".boost")
}

impl Database {
    /// What a `CREATE SEARCH INDEX` stamped `hlc` calls for.
    pub fn plan_search_index(&self, c: &CreateSearchIndex, hlc: Hlc) -> (r: Result<
        SearchWork,
        EngineError,
    >)
        requires
            self.wf(),
        ensures
            verdict(r) == search_work(self@.cat, *c, hlc),
    {
        if !has_def(&self.catalog.tables, &c.table) {
            return Err(EngineError::TableNotFound(c.table.clone()));
        }
        let key = cat("s:", c.name.as_str());
        if !schema_advances(&self.catalog.schema_versions, &key, hlc) {
            return Ok(SearchWork::Stale);
        }
        match def_of(&self.catalog.search_indexes, &c.name) {
            None => Ok(SearchWork::Build),
            Some(known) => {
                if !c.if_not_exists {
                    return Err(EngineError::IndexExists(c.name.clone()));
                }
                if known.table != c.table || !same_strings(&known.paths, &c.paths)
                    || !same_options(&known.options, &c.options) {
                    Ok(SearchWork::Rebuild)
                } else {
                    Ok(SearchWork::Heal)
                }
            },
        }
    }

    /// `CREATE SEARCH INDEX` stamped `hlc`. `work` is how the index data work
    /// that [`Database::plan_search_index`] called for came out.
    pub fn create_search_index(
        &mut self,
        c: CreateSearchIndex,
        work: Result<(), EngineError>,
        hlc: Hlc,
    ) -> (r: Result<DdlOutcome, EngineError>)
        requires
            old(self).wf(),
        ensures
            final(self).wf(),
            ({
                let step = search_index_created(old(self)@, c, verdict(work), hlc);
                verdict(r) == step.0 && final(self)@ == step.1
            }),
    {
        let planned = match self.plan_search_index(&c, hlc) {
            Ok(p) => p,
            Err(e) => {
                return Err(e);
            },
        };
        let key = cat("s:", c.name.as_str());
        match planned {
            SearchWork::Stale => match work {
                Err(e) => Err(e),
                Ok(_) => Ok(DdlOutcome::Stale),
            },
            SearchWork::Heal => match work {
                Err(e) => Err(e),
                Ok(_) => {
                    record_schema(&mut self.catalog.schema_versions, key, hlc, false);
                    Ok(DdlOutcome::Recorded)
                },
            },
            SearchWork::Rebuild => {
                let name = c.name.clone();
                put_def(
                    &mut self.catalog.search_indexes,
                    c.name,
                    SearchIndexDef { table: c.table, paths: c.paths, options: c.options },
                );
                match work {
                    Err(e) => Err(e),
                    Ok(_) => {
                        self.building_searches.drop_name(name.as_str());
                        record_schema(&mut self.catalog.schema_versions, key, hlc, false);
                        Ok(DdlOutcome::Replaced)
                    },
                }
            },
            SearchWork::Build => match work {
                Err(e) => Err(e),
                Ok(_) => {
                    self.building_searches.drop_name(c.name.as_str());
                    put_def(
                        &mut self.catalog.search_indexes,
                        c.name,
                        SearchIndexDef { table: c.table, paths: c.paths, options: c.options },
                    );
                    record_schema(&mut self.catalog.schema_versions, key, hlc, false);
                    Ok(DdlOutcome::Applied)
                },
            },
        }
    }

    /// `DROP SEARCH INDEX` stamped `hlc`.
    pub fn drop_search_index(&mut self, name: &str, if_exists: bool, hlc: Hlc) -> (r: Result<
        DdlOutcome,
        EngineError,
    >)
        requires
            old(self).wf(),
        ensures
            final(self).wf(),
            ({
                let step = drop_search_index_step(old(self)@.cat, name@, if_exists, hlc);
                verdict(r) == step.0 && final(self)@ == (DbView { cat: step.1, ..old(self)@ })
            }),
    {
        let key = cat("s:", name);
        if !schema_advances(&self.catalog.schema_versions, &key, hlc) {
            return Ok(DdlOutcome::Stale);
        }
        let name_owned = name.to_owned();
        let known: bool = has_def(&self.catalog.search_indexes, &name_owned);
        if !known && !if_exists {
            return Err(EngineError::IndexNotFound(name_owned));
        }
        take_def(&mut self.catalog.search_indexes, &name_owned);
        record_schema(&mut self.catalog.schema_versions, key, hlc, true);
        Ok(
            if known {
                DdlOutcome::Applied
            } else {
                DdlOutcome::Recorded
            },
        )
    }

    /// The options that an `ALTER SEARCH INDEX` would leave; nothing for an
    /// unknown index.
    pub fn altered_search_options(&self, name: &str, options: &Vec<(String, String)>) -> (r: Option<
        Vec<(String, String)>,
    >)
        requires
            self.wf(),
        ensures
            r is Some <==> self@.cat.search_indexes.dom().contains(name@),
            r matches Some(os) ==> option_views(os@) == merged_options(
                self@.cat.search_indexes[name@].options,
                option_views(options@),
            ),
    {
        match def_of(&self.catalog.search_indexes, &name.to_owned()) {
            None => None,
            Some(d) => Some(merge_options(&d.options, options)),
        }
    }

    /// `ALTER SEARCH INDEX ... SET (...)` stamped `hlc`: query-time options
    /// only. `declared` says whether the merged declaration is valid.
    pub fn alter_search_index(
        &mut self,
        name: &str,
        options: &Vec<(String, String)>,
        declared: Result<(), EngineError>,
        hlc: Hlc,
    ) -> (r: Result<DdlOutcome, EngineError>)
        requires
            old(self).wf(),
        ensures
            final(self).wf(),
            ({
                let step = alter_search_index_step(
                    old(self)@.cat,
                    name@,
                    option_views(options@),
                    verdict(declared),
                    hlc,
                );
                verdict(r) == step.0 && final(self)@ == (DbView { cat: step.1, ..old(self)@ })
            }),
    {
        let ghost os = option_views(options@);
        let mut i: usize = 0;
        proof {
            assert(os.skip(0) =~= os);
        }
        while i < options.len()
            invariant
                i <= options@.len(),
                os == option_views(options@),
                self.wf(),
                *self == *old(self),
                index_time_option(os) == index_time_option(os.skip(i as int)),
            decreases options@.len() - i,
        {
            proof {
                assert(os.skip(i as int).drop_first() =~= os.skip(i + 1));
            }
            if !is_query_time(options[i].0.as_str()) {
                return Err(
                    EngineError::Type(
                        cat3(
                            "'",
                            options[i].0.as_str(),
                            "' is an index-time option — DROP and re-CREATE the index to change it (ALTER SET takes synonyms, refresh_ms, <col>.search_analyzer, <col>.boost)",
                        ),
                    ),
                );
            }
            i = i + 1;
        }
        let key = cat("s:", name);
        if !schema_advances(&self.catalog.schema_versions, &key, hlc) {
            return Ok(DdlOutcome::Stale);
        }
        let name_owned = name.to_owned();
        if !has_def(&self.catalog.search_indexes, &name_owned) {
            return Err(EngineError::IndexNotFound(name_owned));
        }
        if let Err(e) = declared {
            return Err(e);
        }
        let ghost before = self@.cat.search_indexes;
        if let Some(mut def) = take_def(&mut self.catalog.search_indexes, &name_owned) {
            let merged = merge_options(&def.options, options);
            def.options = merged;
            let ghost dv = def@;
            put_def(&mut self.catalog.search_indexes, name_owned, def);
            proof {
                assert(self@.cat.search_indexes =~= before.insert(name@, dv));
            }
        }
        record_schema(&mut self.catalog.schema_versions, key, hlc, false);
        Ok(DdlOutcome::Applied)
    }

    /// `REBUILD SEARCH INDEX`: whether there is such an index to rebuild.
    pub fn rebuild_search_index_cmd(&self, name: &str) -> (r: Result<(), EngineError>)
        requires
            self.wf(),
        ensures
            self@.cat.search_indexes.dom().contains(name@) ==> r is Ok,
            !self@.cat.search_indexes.dom().contains(name@) ==> verdict(r) == Err::<(), ErrorView>(
                ErrorView::IndexNotFound(name@),
            ),
    {
        let name_owned = name.to_owned();
        if has_def(&self.catalog.search_indexes, &name_owned) {
            Ok(())
        } else {
            Err(EngineError::IndexNotFound(name_owned))
        }
    }

    /// Takes note that a search index's data was built anew from its table, as
    /// `REBUILD SEARCH INDEX` and the healing of missing data do. `work` is how
    /// that came out.
    pub fn rebuild_search_index(&mut self, name: &str, work: Result<(), EngineError>) -> (r: Result<
        (),
        EngineError,
    >)
        requires
            old(self).wf(),
        ensures
            final(self).wf(),
            if !old(self)@.cat.search_indexes.dom().contains(name@) {
                final(self)@ == old(self)@ && verdict(r) == Err::<(), ErrorView>(
                    ErrorView::IndexNotFound(name@),
                )
            } else {
                verdict(r) == verdict(work) && final(self)@ == (if work is Ok {
                    DbView {
                        building_searches: old(self)@.building_searches.remove(name@),
                        ..old(self)@
                    }
                } else {
                    old(self)@
                })
            },
    {
        if let Err(e) = self.rebuild_search_index_cmd(name) {
            return Err(e);
        }
        if work.is_ok() {
            self.building_searches.drop_name(name);
        }
        work
    }

    /// Whether the catalog has a search index whose live data is missing.
    pub fn search_index_needs_healing(&self, name: &str, live: bool) -> (r: bool)
        requires
            self.wf(),
        ensures
            r == (self@.cat.search_indexes.dom().contains(name@) && !live),
    {
        has_def(&self.catalog.search_indexes, &name.to_owned()) && !live
    }
}

} // verus!
