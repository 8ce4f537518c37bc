//! Creating, tuning and dropping vector indexes under last-writer-wins.

use vstd::prelude::*;

use crate::catalog::advances;
use crate::catalog::def_of;
use crate::catalog::defs;
use crate::catalog::has_def;
use crate::catalog::option_views;
use crate::catalog::put_def;
use crate::catalog::record_schema;
use crate::catalog::schema_advances;
use crate::catalog::take_def;
use crate::catalog::CatalogView;
use crate::catalog::VectorIndexDef;
use crate::catalog::VectorIndexView;
use crate::database::verdict;
use crate::database::without_name;
use crate::database::Database;
use crate::database::DbView;
use crate::database::DdlOutcome;
use crate::ddl_table::stamped;
use crate::error::constraint;
use crate::error::constraint_about;
use crate::error::type_error;
use crate::error::unsupported;
use crate::error::unsupported_about;
use crate::error::EngineError;
use crate::error::ErrorView;
use crate::hlc::Hlc;
use crate::namespace::split;
use crate::namespace::split_name;
use crate::sorted_map::lemma_entry_at;
use crate::sorted_map::SortKey;
use crate::sorted_map::SortedMap;
use crate::text::cat;
use crate::text::cat3;
use crate::text::decimal;
use crate::text::decimal_of;
use crate::text::eq_ignore_case;
use crate::text::lowered;
use crate::text::parse_unsigned;
use crate::text::seq_lt;
use crate::text::str_eq;
use crate::text::to_lower;
use crate::text::unsigned_value;

verus! {

/// `CREATE VECTOR INDEX`.
pub struct CreateVectorIndex {
    pub name: String,
    pub table: String,
    pub path: String,
    pub metric: String,
    pub dim: Option<usize>,
    pub embed: bool,
    pub quantized: bool,
    pub if_not_exists: bool,
}

/// What a vector index's creation has to ask outside the catalog.
#[derive(Clone, Copy, Debug, PartialEq, Eq, Structural)]
pub struct VectorFacts {
    /// The dimension of the inference model, where a provider is configured.
    pub embedder_dim: Option<usize>,
    /// Whether the metric's name is a known one.
    pub metric_known: bool,
    /// The dimension of the first vector found in the table's rows.
    pub inferred_dim: Option<usize>,
}

/// The message for an index dimension that the inference model does not have.
pub open spec fn dim_mismatch(d: usize, model: usize) -> Seq<char> {
    "index DIM "@ + decimal(d as nat) + " does not match the inference model's dimension "@
        + decimal(model as nat) + " (inference.dim)"@
}

/// Whether a definition differs from what a statement asks for. The
/// dimension counts only where the statement names one.
pub open spec fn vector_differs(known: VectorIndexView, c: CreateVectorIndex) -> bool {
    ||| known.table != c.table@
    ||| known.path != c.path@
    ||| lowered(known.metric) != lowered(c.metric@)
    ||| known.embed != c.embed
    ||| known.quantized != c.quantized
    ||| (c.dim matches Some(d) && d != known.dim)
}

/// Whether an index other than `name` covers `(table, path)`.
pub open spec fn covers(
    m: Map<Seq<char>, VectorIndexView>,
    name: Seq<char>,
    table: Seq<char>,
    path: Seq<char>,
    other: Seq<char>,
) -> bool {
    other != name && m.dom().contains(other) && m[other].table == table && m[other].path == path
}

/// Whether `other` is the first such index in name order.
pub open spec fn first_cover(
    m: Map<Seq<char>, VectorIndexView>,
    name: Seq<char>,
    table: Seq<char>,
    path: Seq<char>,
    other: Seq<char>,
) -> bool {
    covers(m, name, table, path, other) && forall|n: Seq<char>| #[trigger]
        covers(m, name, table, path, n) ==> n == other || seq_lt(other, n)
}

/// The first index other than `name` that covers `(table, path)`.
pub open spec fn covering_index(
    m: Map<Seq<char>, VectorIndexView>,
    name: Seq<char>,
    table: Seq<char>,
    path: Seq<char>,
) -> Option<Seq<char>> {
    if exists|n: Seq<char>| #[trigger] covers(m, name, table, path, n) {
        Some(choose|n: Seq<char>| first_cover(m, name, table, path, n))
    } else {
        None
    }
}

/// The message for a column that another vector index covers already.
pub open spec fn covered_message(other: Seq<char>, table: Seq<char>, path: Seq<char>) -> Seq<char> {
    "vector index '"@ + split_name(other).1 + "' already covers "@ + table + " ("@ + path
        + ") — drop it first"@
}

/// The message for a table without a vector to take the dimension from.
pub open spec fn no_dimension_message(table: Seq<char>, path: Seq<char>) -> Seq<char> {
    "cannot infer vector dimension: no row of '"@ + table + "' has a numeric array at '"@ + path
        + "'"@
}

/// The definition that a statement asks for, at dimension `dim`.
pub open spec fn asked_vector(c: CreateVectorIndex, dim: usize, ef: Option<usize>) -> VectorIndexView {
    VectorIndexView {
        table: c.table@,
        path: c.path@,
        metric: lowered(c.metric@),
        dim,
        ef_search: ef,
        embed: c.embed,
        quantized: c.quantized,
    }
}

/// A database that has forgotten the vector index `name`, but for its version.
pub open spec fn vector_forgotten(v: DbView, name: Seq<char>) -> DbView {
    DbView {
        cat: CatalogView { vector_indexes: v.cat.vector_indexes.remove(name), ..v.cat },
        building_vectors: v.building_vectors.remove(name),
        pending_vector_backfills: v.pending_vector_backfills.filter(|n: Seq<char>| n != name),
        ..v
    }
}

/// What is wrong with a statement whatever the catalog's versions say.
pub open spec fn vector_refusal(v: CatalogView, c: CreateVectorIndex, facts: VectorFacts) -> Option<
    ErrorView,
> {
    if !v.tables.dom().contains(c.table@) {
        Some(ErrorView::TableNotFound(c.table@))
    } else if c.quantized && c.embed {
        Some(
            ErrorView::Unsupported(
                "QUANTIZED requires the vector stored in the row and cannot combine with EMBED (the row holds only the text — there is no exact vector to rescore against)"@,
            ),
        )
    } else if c.embed {
        match (c.dim, facts.embedder_dim) {
            (None, _) => Some(
                ErrorView::Constraint("CREATE VECTOR INDEX … EMBED requires DIM <n>"@),
            ),
            (Some(_), None) => Some(
                ErrorView::Unsupported(
                    "CREATE VECTOR INDEX … EMBED needs a configured [inference] provider"@,
                ),
            ),
            (Some(d), Some(model)) => if model != d {
                Some(ErrorView::Constraint(dim_mismatch(d, model)))
            } else {
                None
            },
        }
    } else {
        None
    }
}

/// `CREATE VECTOR INDEX`: what it answers and the database it leaves. A newer
/// differing definition replaces the old one and keeps its live-tuned search
/// breadth; what is refused after that has already let the old one go.
pub open spec fn create_vector_index_step(
    v: DbView,
    c: CreateVectorIndex,
    facts: VectorFacts,
    hlc: Hlc,
) -> (Result<DdlOutcome, ErrorView>, DbView) {
    let name = c.name@;
    let key = "v:"@ + name;
    let known = v.cat.vector_indexes.dom().contains(name);
    match vector_refusal(v.cat, c, facts) {
        Some(e) => (Err(e), v),
        None => if !advances(v.cat.versions, key, hlc) {
            (Ok(DdlOutcome::Stale), v)
        } else if known && !c.if_not_exists {
            (Err(ErrorView::IndexExists(name)), v)
        } else if known && !vector_differs(v.cat.vector_indexes[name], c) {
            (Ok(DdlOutcome::Recorded), DbView { cat: stamped(v.cat, key, hlc, false), ..v })
        } else {
            let w = if known {
                vector_forgotten(v, name)
            } else {
                v
            };
            let ef = if known {
                v.cat.vector_indexes[name].ef_search
            } else {
                None
            };
            let done = if known {
                DdlOutcome::Replaced
            } else {
                DdlOutcome::Applied
            };
            if !facts.metric_known {
                (
                    Err(
                        ErrorView::Constraint("unknown vector metric '"@ + c.metric@ + "'"@),
                    ),
                    w,
                )
            } else {
                match covering_index(w.cat.vector_indexes, name, c.table@, c.path@) {
                    Some(other) => (
                        Err(ErrorView::Constraint(covered_message(other, c.table@, c.path@))),
                        w,
                    ),
                    None => match (c.dim, facts.inferred_dim) {
                        (Some(d), _) => {
                            let cat = stamped(
                                CatalogView {
                                    vector_indexes: w.cat.vector_indexes.insert(
                                        name,
                                        asked_vector(c, d, ef),
                                    ),
                                    ..w.cat
                                },
                                key,
                                hlc,
                                false,
                            );
                            if c.embed {
                                (Ok(done), DbView { cat, ..w })
                            } else {
                                (
                                    Ok(done),
                                    DbView {
                                        cat,
                                        building_vectors: w.building_vectors.insert(name),
                                        pending_vector_backfills: w.pending_vector_backfills.push(
                                            name,
                                        ),
                                        ..w
                                    },
                                )
                            }
                        },
                        (None, Some(d)) => (
                            Ok(done),
                            DbView {
                                cat: stamped(
                                    CatalogView {
                                        vector_indexes: w.cat.vector_indexes.insert(
                                            name,
                                            asked_vector(c, d, ef),
                                        ),
                                        ..w.cat
                                    },
                                    key,
                                    hlc,
                                    false,
                                ),
                                ..w
                            },
                        ),
                        (None, None) => (
                            Err(ErrorView::Constraint(no_dimension_message(c.table@, c.path@))),
                            w,
                        ),
                    },
                }
            }
        },
    }
}

/// `DROP VECTOR INDEX`: what it answers and the database it leaves.
pub open spec fn drop_vector_index_step(v: DbView, name: Seq<char>, if_exists: bool, hlc: Hlc) -> (
    Result<DdlOutcome, ErrorView>,
    DbView,
) {
    let key = "v:"@ + name;
    let known = v.cat.vector_indexes.dom().contains(name);
    if !advances(v.cat.versions, key, hlc) {
        (Ok(DdlOutcome::Stale), v)
    } else if !known && !if_exists {
        (Err(ErrorView::IndexNotFound(name)), v)
    } else {
        let w = vector_forgotten(v, name);
        (
            Ok(
                if known {
                    DdlOutcome::Applied
                } else {
                    DdlOutcome::Recorded
                },
            ),
            DbView { cat: stamped(w.cat, key, hlc, true), ..w },
        )
    }
}

/// The search breadth that one option sets, or why it cannot be set.
pub open spec fn option_ef(o: (Seq<char>, Seq<char>)) -> Result<usize, ErrorView> {
    if o.0 == "ef"@ {
        match unsigned_value(o.1) {
            Some(n) => if n > usize::MAX {
                Err(ErrorView::Type("ef must be a positive integer, got '"@ + o.1 + "'"@))
            } else if n == 0 || n > 65_536 {
                Err(ErrorView::Type("ef must be between 1 and 65536"@))
            } else {
                Ok(n as usize)
            },
            None => Err(ErrorView::Type("ef must be a positive integer, got '"@ + o.1 + "'"@)),
        }
    } else if o.0 == "m"@ || o.0 == "ef_construction"@ {
        Err(
            ErrorView::Unsupported(
                "'"@ + o.0
                    + "' shapes the graph at build time — DROP and re-CREATE the vector index to change it"@,
            ),
        )
    } else {
        Err(ErrorView::Unsupported("unknown vector index option '"@ + o.0 + "' (try ef)"@))
    }
}

/// The search breadth that a list of options sets: the last one wins, and the
/// first bad option is the error.
pub open spec fn asked_ef(os: Seq<(Seq<char>, Seq<char>)>) -> Result<Option<usize>, ErrorView>
    decreases os.len(),
{
    if os.len() == 0 {
        Ok(None)
    } else {
        match asked_ef(os.drop_last()) {
            Err(e) => Err(e),
            Ok(_) => match option_ef(os.last()) {
                Err(e) => Err(e),
                Ok(ef) => Ok(Some(ef)),
            },
        }
    }
}

/// `ALTER VECTOR INDEX`: what it answers and the catalog it leaves.
pub open spec fn alter_vector_index_step(
    v: CatalogView,
    name: Seq<char>,
    options: Seq<(Seq<char>, Seq<char>)>,
    hlc: Hlc,
) -> (Result<DdlOutcome, ErrorView>, CatalogView) {
    let key = "v:"@ + name;
    match asked_ef(options) {
        Err(e) => (Err(e), v),
        Ok(ef) => if !advances(v.versions, key, hlc) {
            (Ok(DdlOutcome::Stale), v)
        } else if !v.vector_indexes.dom().contains(name) {
            (Err(ErrorView::IndexNotFound(name)), v)
        } else {
            let known = v.vector_indexes[name];
            let tuned = VectorIndexView {
                ef_search: if ef is Some {
                    ef
                } else {
                    known.ef_search
                },
                ..known
            };
            (
                Ok(DdlOutcome::Applied),
                stamped(
                    CatalogView { vector_indexes: v.vector_indexes.insert(name, tuned), ..v },
                    key,
                    hlc,
                    false,
                ),
            )
        },
    }
}

/// The first index other than `name` on `(table, path)`, in name order.
fn find_cover(
    m: &SortedMap<String, VectorIndexDef>,
    name: &str,
    table: &str,
    path: &str,
) -> (r: Option<String>)
    requires
        m.wf(),
    ensures
        r is None <==> covering_index(defs(*m), name@, table@, path@) is None,
        r matches Some(n) ==> covering_index(defs(*m), name@, table@, path@) == Some(n@),
{
    let ghost d = defs(*m);
    let mut i: usize = 0;
    while i < m.len()
        invariant
            m.wf(),
            d == defs(*m),
            i <= m.entries@.len(),
            forall|k: int|
                0 <= k < i ==> !covers(
                    d,
                    name@,
                    table@,
                    path@,
                    (#[trigger] m.entries@[k]).0@,
                ),
        decreases m.entries@.len() - i,
    {
        proof {
            lemma_entry_at(m.entries@, i as int);
        }
        let def = m.value_at(i);
        let other = m.key_at(i);
        if !str_eq(other.as_str(), name) && str_eq(def.table.as_str(), table) && str_eq(
            def.path.as_str(),
            path,
        ) {
            proof {
                let o = other@;
                assert(covers(d, name@, table@, path@, o));
                assert forall|n: Seq<char>| #[trigger] covers(d, name@, table@, path@, n) implies n
                    == o || seq_lt(o, n) by {
                    let p = crate::sorted_map::place_of(m.entries@, n);
                    lemma_entry_at(m.entries@, p);
                    if p > i {
                        assert(<String as SortKey>::below(
                            m.entries@[i as int].0.model(),
                            m.entries@[p].0.model(),
                        ));
                    }
                }
                assert(first_cover(d, name@, table@, path@, o));
                let c = choose|n: Seq<char>| first_cover(d, name@, table@, path@, n);
                assert(first_cover(d, name@, table@, path@, c));
                if c != o {
                    crate::text::lemma_seq_lt_trans(c, o, c);
                    crate::text::lemma_seq_lt_irrefl(c);
                }
            }
            return Some(other.clone());
        }
        i = i + 1;
    }
    proof {
        assert forall|n: Seq<char>| !(#[trigger] covers(d, name@, table@, path@, n)) by {
            if d.dom().contains(n) {
                let p = crate::sorted_map::place_of(m.entries@, n);
                lemma_entry_at(m.entries@, p);
                assert(!covers(d, name@, table@, path@, m.entries@[p].0@));
            }
        }
    }
    None
}

/// The search breadth that a list of options sets.
fn parse_ef(options: &Vec<(String, String)>) -> (r: Result<Option<usize>, EngineError>)
    ensures
        verdict(r) == asked_ef(option_views(options@)),
{
    let ghost os = option_views(options@);
    let mut ef: Option<usize> = None;
    let mut i: usize = 0;
    proof {
        assert(os.take(0) =~= Seq::<(Seq<char>, Seq<char>)>::empty());
    }
    while i < options.len()
        invariant
            i <= options@.len(),
            os == option_views(options@),
            asked_ef(os.take(i as int)) == Ok::<Option<usize>, ErrorView>(ef),
        decreases options@.len() - i,
    {
        let key = options[i].0.as_str();
        let value = options[i].1.as_str();
        proof {
            assert(os.take(i + 1).drop_last() =~= os.take(i as int));
            assert(os.take(i + 1).last() == os[i as int]);
            lemma_asked_ef_error(os, i + 1);
        }
        if str_eq(key, "ef") {
            match parse_unsigned(value, usize::MAX as u64) {
                None => {
                    return Err(
                        EngineError::Type(cat3("ef must be a positive integer, got '", value, "'")),
                    );
                },
                Some(n) => {
                    if n == 0 || n > 65_536 {
                        return Err(type_error("ef must be between 1 and 65536"));
                    }
                    ef = Some(n as usize);
                },
            }
        } else if str_eq(key, "m") || str_eq(key, "ef_construction") {
            return Err(
                unsupported_about(
                    "'",
                    key,
                    "' shapes the graph at build time — DROP and re-CREATE the vector index to change it",
                ),
            );
        } else {
            return Err(unsupported_about("unknown vector index option '", key, "' (try ef)"));
        }
        i = i + 1;
    }
    proof {
        assert(os.take(os.len() as int) =~= os);
    }
    Ok(ef)
}

/// An error among the first options is the error of the whole list.
proof fn lemma_asked_ef_error(os: Seq<(Seq<char>, Seq<char>)>, k: int)
    requires
        0 <= k <= os.len(),
    ensures
        asked_ef(os.take(k)) is Err ==> asked_ef(os) == asked_ef(os.take(k)),
    decreases os.len() - k,
{
    if k == os.len() {
        assert(os.take(k) =~= os);
    } else {
        lemma_asked_ef_error(os, k + 1);
        assert(os.take(k + 1).drop_last() =~= os.take(k));
    }
}

impl Database {
    /// What is wrong with a `CREATE VECTOR INDEX` whatever the versions say.
    fn refuse_vector(&self, c: &CreateVectorIndex, facts: VectorFacts) -> (r: Option<EngineError>)
        requires
            self.wf(),
        ensures
            r is None <==> vector_refusal(self@.cat, *c, facts) is None,
            r matches Some(e) ==> vector_refusal(self@.cat, *c, facts) == Some(e@),
    {
        if !has_def(&self.catalog.tables, &c.table) {
            return Some(EngineError::TableNotFound(c.table.clone()));
        }
        if c.quantized && c.embed {
            return Some(
                unsupported(
                    "QUANTIZED requires the vector stored in the row and cannot combine with EMBED (the row holds only the text — there is no exact vector to rescore against)",
                ),
            );
        }
        if c.embed {
            match c.dim {
                None => {
                    return Some(constraint("CREATE VECTOR INDEX … EMBED requires DIM <n>"));
                },
                Some(d) => match facts.embedder_dim {
                    None => {
                        return Some(
                            unsupported(
                                "CREATE VECTOR INDEX … EMBED needs a configured [inference] provider",
                            ),
                        );
                    },
                    Some(model) => {
                        if model != d {
                            let head = cat3(
                                "index DIM ",
                                decimal_of(d as u64).as_str(),
                                " does not match the inference model's dimension ",
                            );
                            return Some(
                                constraint_about(
                                    head.as_str(),
                                    decimal_of(model as u64).as_str(),
                                    " (inference.dim)",
                                ),
                            );
                        }
                    },
                },
            }
        }
        None
    }

    /// Creates a vector index over the float array at a path of a table,
    /// stamped `hlc`. Without a dimension the one found in the rows is taken.
    pub fn create_vector_index(
        &mut self,
        c: CreateVectorIndex,
        facts: VectorFacts,
        hlc: Hlc,
    ) -> (r: Result<DdlOutcome, EngineError>)
        requires
            old(self).wf(),
        ensures
            final(self).wf(),
            ({
                let step = create_vector_index_step(old(self)@, c, facts, hlc);
                verdict(r) == step.0 && final(self)@ == step.1
            }),
    {
        if let Some(e) = self.refuse_vector(&c, facts) {
            return Err(e);
        }
        let key = cat("v:", c.name.as_str());
        if !schema_advances(&self.catalog.schema_versions, &key, hlc) {
            return Ok(DdlOutcome::Stale);
        }
        let mut preserved_ef: Option<usize> = None;
        let mut done = DdlOutcome::Applied;
        if let Some(known) = def_of(&self.catalog.vector_indexes, &c.name) {
            if !c.if_not_exists {
                return Err(EngineError::IndexExists(c.name));
            }
            let differs: bool = known.table != c.table || known.path != c.path || !eq_ignore_case(
                known.metric.as_str(),
                c.metric.as_str(),
            ) || known.embed != c.embed || known.quantized != c.quantized || match c.dim {
                Some(d) => d != known.dim,
                None => false,
            };
            if !differs {
                record_schema(&mut self.catalog.schema_versions, key, hlc, false);
                return Ok(DdlOutcome::Recorded);
            }
            preserved_ef = known.ef_search;
            done = DdlOutcome::Replaced;
        }
        if let DdlOutcome::Replaced = done {
            self.forget_vector(&c.name);
        }
        if !facts.metric_known {
            return Err(constraint_about("unknown vector metric '", c.metric.as_str(), "'"));
        }
        if let Some(other) = find_cover(
            &self.catalog.vector_indexes,
            c.name.as_str(),
            c.table.as_str(),
            c.path.as_str(),
        ) {
            let bare = split(other.as_str()).1;
            let head = cat3("vector index '", bare.as_str(), "' already covers ");
            let middle = cat3(head.as_str(), c.table.as_str(), " (");
            return Err(
                constraint_about(middle.as_str(), c.path.as_str(), ") — drop it first"),
            );
        }
        let dim: usize = match c.dim {
            Some(d) => d,
            None => match facts.inferred_dim {
                Some(d) => d,
                None => {
                    let head = cat3(
                        "cannot infer vector dimension: no row of '",
                        c.table.as_str(),
                        "' has a numeric array at '",
                    );
                    return Err(constraint_about(head.as_str(), c.path.as_str(), "'"));
                },
            },
        };
        let def = VectorIndexDef {
            table: c.table.clone(),
            path: c.path.clone(),
            metric: to_lower(c.metric.as_str()),
            dim,
            ef_search: preserved_ef,
            embed: c.embed,
            quantized: c.quantized,
        };
        put_def(&mut self.catalog.vector_indexes, c.name.clone(), def);
        if c.dim.is_some() && !c.embed {
            self.building_vectors.add_name(c.name.clone());
            let ghost owed = self@.pending_vector_backfills;
            self.pending_vector_backfills.push(c.name.clone());
            proof {
                assert(self@.pending_vector_backfills =~= owed.push(c.name@));
            }
        }
        record_schema(&mut self.catalog.schema_versions, key, hlc, false);
        Ok(done)
    }

    /// Forgets a vector index, but for its version.
    fn forget_vector(&mut self, name: &String)
        requires
            old(self).wf(),
        ensures
            final(self).wf(),
            final(self)@ == vector_forgotten(old(self)@, name@),
    {
        take_def(&mut self.catalog.vector_indexes, name);
        self.building_vectors.drop_name(name.as_str());
        let left = without_name(&self.pending_vector_backfills, name.as_str());
        self.pending_vector_backfills = left;
    }

    /// Drops a vector index, stamped `hlc`.
    pub fn drop_vector_index(&mut self, name: &str, if_exists: bool, hlc: Hlc) -> (r: Result<
        DdlOutcome,
        EngineError,
    >)
        requires
            old(self).wf(),
        ensures
            final(self).wf(),
            ({
                let step = drop_vector_index_step(old(self)@, name@, if_exists, hlc);
                verdict(r) == step.0 && final(self)@ == step.1
            }),
    {
        let key = cat("v:", name);
        if !schema_advances(&self.catalog.schema_versions, &key, hlc) {
            return Ok(DdlOutcome::Stale);
        }
        let name_owned = name.to_owned();
        let known: bool = has_def(&self.catalog.vector_indexes, &name_owned);
        if !known && !if_exists {
            return Err(EngineError::IndexNotFound(name_owned));
        }
        self.forget_vector(&name_owned);
        record_schema(&mut self.catalog.schema_versions, key, hlc, true);
        Ok(
            if known {
                DdlOutcome::Applied
            } else {
                DdlOutcome::Recorded
            },
        )
    }

    /// `ALTER VECTOR INDEX ... SET (...)`, stamped `hlc`: live search-time
    /// tuning, of which only `ef` qualifies.
    pub fn alter_vector_index(
        &mut self,
        name: &str,
        options: &Vec<(String, String)>,
        hlc: Hlc,
    ) -> (r: Result<DdlOutcome, EngineError>)
        requires
            old(self).wf(),
        ensures
            final(self).wf(),
            ({
                let step = alter_vector_index_step(
                    old(self)@.cat,
                    name@,
                    option_views(options@),
                    hlc,
                );
                verdict(r) == step.0 && final(self)@ == (DbView { cat: step.1, ..old(self)@ })
            }),
    {
        let ef = match parse_ef(options) {
            Ok(ef) => ef,
            Err(e) => {
                return Err(e);
            },
        };
        let key = cat("v:", name);
        if !schema_advances(&self.catalog.schema_versions, &key, hlc) {
            return Ok(DdlOutcome::Stale);
        }
        let name_owned = name.to_owned();
        let ghost before = self@.cat.vector_indexes;
        match take_def(&mut self.catalog.vector_indexes, &name_owned) {
            None => {
                proof {
                    assert(self@.cat.vector_indexes =~= before);
                }
                Err(EngineError::IndexNotFound(name_owned))
            },
            Some(mut def) => {
                if ef.is_some() {
                    def.ef_search = ef;
                }
                let ghost dv = def@;
                put_def(&mut self.catalog.vector_indexes, name_owned, def);
                proof {
                    assert(self@.cat.vector_indexes =~= before.insert(name@, dv));
                }
                record_schema(&mut self.catalog.schema_versions, key, hlc, false);
                Ok(DdlOutcome::Applied)
            },
        }
    }

    /// Marks a vector index's backfill as through: searches serve from now on.
    pub fn finish_vector_backfill(&mut self, name: &str)
        requires
            old(self).wf(),
        ensures
            final(self).wf(),
            final(self)@ == (DbView {
                building_vectors: old(self)@.building_vectors.remove(name@),
                ..old(self)@
            }),
    {
        self.building_vectors.drop_name(name);
    }
}

} // verus!
