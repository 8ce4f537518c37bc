//! Index maintenance: what a row's write does to the indexes on its table, on
//! the write path or deferred to an applier.

use vstd::prelude::*;

use crate::alter::lists_on;
use crate::alter::names_on;
use crate::catalog::defined_on;
use crate::catalog::defs;
use crate::catalog::GeoIndexDef;
use crate::catalog::IndexDef;
use crate::catalog::OnTable;
use crate::catalog::SearchIndexDef;
use crate::catalog::VectorIndexDef;
use crate::database::copy_strings;
use crate::database::Database;
use crate::error::constraint;
use crate::error::EngineError;
use crate::error::ErrorView;
use crate::hlc::Hlc;
use crate::point_keys::global_entry_delta;
use crate::point_keys::sorted_missing;
use crate::sorted_map::SortedMap;
use crate::text::cat;
use crate::text::str_eq;
use crate::text::views;

verus! {

/// The deferred half of one write: the row's versions before and after it, as
/// stored. A delete leaves none.
pub struct MaintTask {
    pub table: String,
    pub key: Vec<u8>,
    pub hlc: Hlc,
    pub old: Option<Vec<u8>>,
    pub new: Option<Vec<u8>>,
}

/// A task with its documents decoded.
pub struct DecodedMaint<D> {
    pub table: String,
    pub key: Vec<u8>,
    pub hlc: Hlc,
    pub old_doc: Option<D>,
    pub new_doc: Option<D>,
}

/// Whether an optional payload decodes to this document. A payload that is no
/// document is skipped.
pub open spec fn decodes_to<D, F: Fn(&Vec<u8>) -> Option<D>>(
    decode: F,
    bytes: Option<Vec<u8>>,
    doc: Option<D>,
) -> bool {
    match bytes {
        None => doc is None,
        Some(b) => call_ensures(decode, (&b,), doc),
    }
}

impl MaintTask {
    /// Decodes the payloads; `decode` gives the document of an encoded row.
    pub fn decode<D, F: Fn(&Vec<u8>) -> Option<D>>(self, decode: F) -> (r: DecodedMaint<D>)
        requires
            forall|b: &Vec<u8>| call_requires(decode, (b,)),
        ensures
            r.table == self.table,
            r.key == self.key,
            r.hlc == self.hlc,
            decodes_to(decode, self.old, r.old_doc),
            decodes_to(decode, self.new, r.new_doc),
    {
        let old_doc = match &self.old {
            Some(b) => decode(b),
            None => None,
        };
        let new_doc = match &self.new {
            Some(b) => decode(b),
            None => None,
        };
        DecodedMaint { table: self.table, key: self.key, hlc: self.hlc, old_doc, new_doc }
    }
}

/// Whether some definition is on `table`.
pub open spec fn any_on<D: OnTable>(m: Map<Seq<char>, D::V>, table: Seq<char>) -> bool {
    exists|n: Seq<char>| #[trigger] defined_on::<D>(m, table, n)
}

/// Whether some definition is on `table`.
pub fn has_any_on<D: OnTable>(m: &SortedMap<String, D>, table: &str) -> (r: bool)
    requires
        m.wf(),
    ensures
        r == any_on::<D>(defs(*m), table@),
{
    let names = names_on(m, table);
    proof {
        if names@.len() > 0 {
            assert(views(names@)[0] == names@[0]@);
            assert(views(names@).contains(names@[0]@));
            assert(defined_on::<D>(defs(*m), table@, names@[0]@));
        }
        if any_on::<D>(defs(*m), table@) {
            let n = choose|n: Seq<char>| #[trigger] defined_on::<D>(defs(*m), table@, n);
            assert(views(names@).contains(n));
            assert(views(names@).len() == names@.len());
        }
    }
    names.len() > 0
}

impl Database {
    /// Whether an index on `table` needs the decoded document of a written
    /// row.
    pub fn needs_doc_on_write(&self, table: &str) -> (r: bool)
        requires
            self.wf(),
        ensures
            r == (any_on::<IndexDef>(self@.cat.indexes, table@) || any_on::<VectorIndexDef>(
                self@.cat.vector_indexes,
                table@,
            ) || any_on::<SearchIndexDef>(self@.cat.search_indexes, table@) || any_on::<
                GeoIndexDef,
            >(self@.cat.geo_indexes, table@)),
    {
        has_any_on(&self.catalog.indexes, table) || has_any_on(&self.catalog.vector_indexes, table)
            || has_any_on(&self.catalog.search_indexes, table) || has_any_on(
            &self.catalog.geo_indexes,
            table,
        )
    }

    /// The task of one written row, where an index on the table needs it: the
    /// row's previous version `old`, captured before the write, and the new
    /// one, or none for a delete.
    pub fn capture_maintenance(
        &self,
        table: &str,
        key: Vec<u8>,
        hlc: Hlc,
        old_row: Option<Vec<u8>>,
        new_row: Option<Vec<u8>>,
    ) -> (r: Option<MaintTask>)
        requires
            self.wf(),
        ensures
            r is Some <==> any_on::<IndexDef>(self@.cat.indexes, table@) || any_on::<VectorIndexDef>(
                self@.cat.vector_indexes,
                table@,
            ) || any_on::<SearchIndexDef>(self@.cat.search_indexes, table@) || any_on::<
                GeoIndexDef,
            >(self@.cat.geo_indexes, table@),
            r matches Some(t) ==> t.table@ == table@ && t.key == key && t.hlc == hlc && t.old
                == old_row && t.new == new_row,
    {
        if self.needs_doc_on_write(table) {
            Some(MaintTask { table: table.to_owned(), key, hlc, old: old_row, new: new_row })
        } else {
            None
        }
    }
}

/// Whether a list holds the indexes on `table` that a test lets through, in
/// name order, each with its paths.
pub open spec fn lists_indexes(
    r: Seq<(String, Vec<String>)>,
    es: Seq<(String, IndexDef)>,
    table: Seq<char>,
    global_only: bool,
) -> bool
    decreases es.len(),
{
    if es.len() == 0 {
        r.len() == 0
    } else if es.last().1.table@ == table && (es.last().1.global || !global_only) {
        r.len() > 0 && r.last().0@ == es.last().0@ && views(r.last().1@) == views(
            es.last().1.paths@,
        ) && lists_indexes(r.drop_last(), es.drop_last(), table, global_only)
    } else {
        lists_indexes(r, es.drop_last(), table, global_only)
    }
}

fn list_indexes(m: &SortedMap<String, IndexDef>, table: &str, global_only: bool) -> (r: Vec<
    (String, Vec<String>),
>)
    requires
        m.wf(),
    ensures
        lists_indexes(r@, m.entries@, table@, global_only),
{
    let ghost es = m.entries@;
    let mut out: Vec<(String, Vec<String>)> = Vec::new();
    let mut i: usize = 0;
    proof {
        assert(es.take(0) =~= Seq::<(String, IndexDef)>::empty());
    }
    while i < m.len()
        invariant
            m.wf(),
            es == m.entries@,
            i <= es.len(),
            lists_indexes(out@, es.take(i as int), table@, global_only),
        decreases es.len() - i,
    {
        proof {
            assert(es.take(i + 1).drop_last() =~= es.take(i as int));
            assert(es.take(i + 1).last() == es[i as int]);
        }
        let def = m.value_at(i);
        if str_eq(def.table.as_str(), table) && (def.global || !global_only) {
            let ghost before = out@;
            out.push((m.key_at(i).clone(), copy_strings(&def.paths)));
            proof {
                assert(out@.drop_last() =~= before);
            }
        }
        i = i + 1;
    }
    proof {
        assert(es.take(es.len() as int) =~= es);
    }
    out
}

impl Database {
    /// The indexes on `table` and their paths, in name order.
    pub fn indexes_on(&self, table: &str) -> (r: Vec<(String, Vec<String>)>)
        requires
            self.wf(),
        ensures
            lists_indexes(r@, self.catalog.indexes.entries@, table@, false),
    {
        list_indexes(&self.catalog.indexes, table, false)
    }

    /// The global indexes on `table` and their paths, in name order: those
    /// whose entries a write has to route.
    pub fn global_indexes_of(&self, table: &str) -> (r: Vec<(String, Vec<String>)>)
        requires
            self.wf(),
        ensures
            lists_indexes(r@, self.catalog.indexes.entries@, table@, true),
    {
        list_indexes(&self.catalog.indexes, table, true)
    }
}

/// Keys by their bytes.
pub open spec fn key_views(ks: Seq<Vec<u8>>) -> Seq<Seq<u8>> {
    ks.map_values(|k: Vec<u8>| k@)
}

/// The entry keys that an entry function gives a document under an index's
/// paths.
pub open spec fn entry_keys<D, E: Fn(&Vec<String>, &Vec<u8>, &D) -> Vec<Vec<u8>>>(
    entries: E,
    key: Vec<u8>,
    paths: Vec<String>,
    doc: D,
) -> Seq<Seq<u8>> {
    key_views((choose|ks: Vec<Vec<u8>>| call_ensures(entries, (&paths, &key, &doc), ks))@)
}

/// Whether an entry function can be asked of every document and always gives
/// the same keys.
pub open spec fn is_entry_function<D, E: Fn(&Vec<String>, &Vec<u8>, &D) -> Vec<Vec<u8>>>(entries: E) -> bool {
    &&& forall|p: &Vec<String>, k: &Vec<u8>, d: &D| call_requires(entries, (p, k, d))
    &&& forall|p: &Vec<String>, k: &Vec<u8>, d: &D, a: Vec<Vec<u8>>, b: Vec<Vec<u8>>|
        call_ensures(entries, (p, k, d), a) && call_ensures(entries, (p, k, d), b) ==> key_views(
            a@,
        ) == key_views(b@)
}

/// A change to an index's entries.
pub struct IndexOp {
    pub index: String,
    pub key: Vec<u8>,
    /// The key of the row that the entry leads to.
    pub row: Vec<u8>,
    /// Whether the entry is put, or deleted.
    pub put: bool,
}

pub struct OpView {
    pub index: Seq<char>,
    pub key: Seq<u8>,
    pub row: Seq<u8>,
    pub put: bool,
}

impl View for IndexOp {
    type V = OpView;

    open spec fn view(&self) -> OpView {
        OpView { index: self.index@, key: self.key@, row: self.row@, put: self.put }
    }
}

/// Changes by what each is.
pub open spec fn op_views(ops: Seq<IndexOp>) -> Seq<OpView> {
    ops.map_values(|o: IndexOp| o@)
}

/// Whether an index keeps its entries in its own store and is on `table`.
pub open spec fn local_on(def: IndexDef, table: Seq<char>) -> bool {
    def.table@ == table && !def.global
}

/// The changes that put or delete a run of entries of one row.
pub open spec fn key_ops(index: Seq<char>, row: Seq<u8>, keys: Seq<Seq<u8>>, put: bool) -> Seq<
    OpView,
> {
    keys.map_values(|k: Seq<u8>| OpView { index, key: k, row, put })
}

/// The changes that put or delete a document's entries in the indexes on
/// `table`. A global index's entries are not among them: they live in a table
/// of their own.
pub open spec fn doc_ops<D, E: Fn(&Vec<String>, &Vec<u8>, &D) -> Vec<Vec<u8>>>(
    es: Seq<(String, IndexDef)>,
    table: Seq<char>,
    entries: E,
    key: Vec<u8>,
    doc: D,
    put: bool,
) -> Seq<OpView>
    decreases es.len(),
{
    if es.len() == 0 {
        Seq::empty()
    } else {
        let before = doc_ops(es.drop_last(), table, entries, key, doc, put);
        if local_on(es.last().1, table) {
            before + key_ops(
                es.last().0@,
                key@,
                entry_keys(entries, key, es.last().1.paths, doc),
                put,
            )
        } else {
            before
        }
    }
}

/// Adds the changes that put or delete a run of entries of one row.
pub fn push_key_ops(
    out: &mut Vec<IndexOp>,
    index: &String,
    row: &Vec<u8>,
    keys: Vec<Vec<u8>>,
    put: bool,
)
    ensures
        op_views(final(out)@) == op_views(old(out)@) + key_ops(
            index@,
            row@,
            key_views(keys@),
            put,
        ),
{
    let ghost start = op_views(out@);
    let ghost ks = key_views(keys@);
    let mut i: usize = 0;
    proof {
        assert(start + key_ops(index@, row@, ks.take(0), put) =~= start);
    }
    while i < keys.len()
        invariant
            i <= keys@.len(),
            ks == key_views(keys@),
            op_views(out@) == start + key_ops(index@, row@, ks.take(i as int), put),
        decreases keys@.len() - i,
    {
        let ghost before = op_views(out@);
        let key = crate::bytes::copy_bytes(keys[i].as_slice());
        let made = IndexOp {
            index: index.clone(),
            key,
            row: crate::bytes::copy_bytes(row.as_slice()),
            put,
        };
        let ghost op = made@;
        out.push(made);
        proof {
            assert(op == OpView { index: index@, key: ks[i as int], row: row@, put });
            assert(op_views(out@) =~= before.push(op));
            assert(start + key_ops(index@, row@, ks.take(i + 1), put) =~= before.push(op));
        }
        i = i + 1;
    }
    proof {
        assert(ks.take(ks.len() as int) =~= ks);
    }
}

fn push_doc_ops<D, E: Fn(&Vec<String>, &Vec<u8>, &D) -> Vec<Vec<u8>>>(
    out: &mut Vec<IndexOp>,
    m: &SortedMap<String, IndexDef>,
    table: &str,
    entries: &E,
    key: &Vec<u8>,
    doc: &D,
    put: bool,
)
    requires
        m.wf(),
        is_entry_function::<D, E>(*entries),
    ensures
        op_views(final(out)@) == op_views(old(out)@) + doc_ops(
            m.entries@,
            table@,
            *entries,
            *key,
            *doc,
            put,
        ),
{
    let ghost start = op_views(out@);
    let ghost es = m.entries@;
    let mut i: usize = 0;
    proof {
        assert(es.take(0) =~= Seq::<(String, IndexDef)>::empty());
        assert(start + doc_ops(es.take(0), table@, *entries, *key, *doc, put) =~= start);
    }
    while i < m.len()
        invariant
            m.wf(),
            is_entry_function::<D, E>(*entries),
            es == m.entries@,
            i <= es.len(),
            op_views(out@) == start + doc_ops(es.take(i as int), table@, *entries, *key, *doc, put),
        decreases es.len() - i,
    {
        proof {
            assert(es.take(i + 1).drop_last() =~= es.take(i as int));
            assert(es.take(i + 1).last() == es[i as int]);
        }
        let def = m.value_at(i);
        if str_eq(def.table.as_str(), table) && !def.global {
            let ghost before = op_views(out@);
            let keys = entries(&def.paths, key, doc);
            proof {
                assert(key_views(keys@) == entry_keys(*entries, *key, es[i as int].1.paths, *doc));
            }
            push_key_ops(out, m.key_at(i), key, keys, put);
            proof {
                assert(start + doc_ops(es.take(i + 1), table@, *entries, *key, *doc, put) =~= before
                    + key_ops(
                    es[i as int].0@,
                    key@,
                    entry_keys(*entries, *key, es[i as int].1.paths, *doc),
                    put,
                ));
            }
        }
        i = i + 1;
    }
    proof {
        assert(es.take(es.len() as int) =~= es);
    }
}

/// The changes that an optional version's entries call for.
pub open spec fn version_ops<D, E: Fn(&Vec<String>, &Vec<u8>, &D) -> Vec<Vec<u8>>>(
    es: Seq<(String, IndexDef)>,
    table: Seq<char>,
    entries: E,
    key: Vec<u8>,
    doc: Option<D>,
    put: bool,
) -> Seq<OpView> {
    match doc {
        Some(d) => doc_ops(es, table, entries, key, d, put),
        None => Seq::empty(),
    }
}

/// What one write has to do to the indexes on its table.
pub struct MaintPlan {
    /// The secondary entries to delete and then to put.
    pub index_ops: Vec<IndexOp>,
    /// The geo indexes whose entry of the old version goes.
    pub geo_removals: Vec<String>,
    /// The geo indexes that get an entry of the new version.
    pub geo_puts: Vec<String>,
    /// The vector indexes to update.
    pub vectors: Vec<String>,
    /// The search indexes to update.
    pub searches: Vec<String>,
    /// Whether the row is gone.
    pub deleted: bool,
}

impl Database {
    /// What one write has to do to the indexes on its table: the previous
    /// version's entries go, and then the new one's come.
    pub fn plan_maintenance<D, E: Fn(&Vec<String>, &Vec<u8>, &D) -> Vec<Vec<u8>>>(
        &self,
        m: &DecodedMaint<D>,
        entries: &E,
    ) -> (r: MaintPlan)
        requires
            self.wf(),
            is_entry_function::<D, E>(*entries),
        ensures
            op_views(r.index_ops@) == version_ops(
                self.catalog.indexes.entries@,
                m.table@,
                *entries,
                m.key,
                m.old_doc,
                false,
            ) + version_ops(
                self.catalog.indexes.entries@,
                m.table@,
                *entries,
                m.key,
                m.new_doc,
                true,
            ),
            r.deleted == (m.new_doc is None),
            lists_on::<VectorIndexDef>(views(r.vectors@), self@.cat.vector_indexes, m.table@),
            lists_on::<SearchIndexDef>(views(r.searches@), self@.cat.search_indexes, m.table@),
            m.old_doc is Some ==> lists_on::<GeoIndexDef>(
                views(r.geo_removals@),
                self@.cat.geo_indexes,
                m.table@,
            ),
            m.old_doc is None ==> r.geo_removals@.len() == 0,
            m.new_doc is Some ==> lists_on::<GeoIndexDef>(
                views(r.geo_puts@),
                self@.cat.geo_indexes,
                m.table@,
            ),
            m.new_doc is None ==> r.geo_puts@.len() == 0,
    {
        let table = m.table.as_str();
        let mut index_ops: Vec<IndexOp> = Vec::new();
        let mut geo_removals: Vec<String> = Vec::new();
        let mut geo_puts: Vec<String> = Vec::new();
        let ghost es = self.catalog.indexes.entries@;
        proof {
            assert(op_views(index_ops@) =~= Seq::<OpView>::empty());
        }
        if let Some(d) = &m.old_doc {
            push_doc_ops(&mut index_ops, &self.catalog.indexes, table, entries, &m.key, d, false);
            geo_removals = names_on(&self.catalog.geo_indexes, table);
        }
        proof {
            assert(op_views(index_ops@) =~= version_ops(es, m.table@, *entries, m.key, m.old_doc, false));
        }
        let mut deleted: bool = true;
        if let Some(d) = &m.new_doc {
            push_doc_ops(&mut index_ops, &self.catalog.indexes, table, entries, &m.key, d, true);
            geo_puts = names_on(&self.catalog.geo_indexes, table);
            deleted = false;
        }
        proof {
            assert(op_views(index_ops@) =~= version_ops(es, m.table@, *entries, m.key, m.old_doc, false)
                + version_ops(es, m.table@, *entries, m.key, m.new_doc, true));
        }
        MaintPlan {
            index_ops,
            geo_removals,
            geo_puts,
            vectors: names_on(&self.catalog.vector_indexes, table),
            searches: names_on(&self.catalog.search_indexes, table),
            deleted,
        }
    }
}

/// The error of a replicated row whose bytes are no document: what the decoder
/// said, or nothing where they decode to another value.
pub fn replicated_row_error(corrupt: Option<&str>) -> (r: EngineError)
    ensures
        r@ == (match corrupt {
            Some(e) => ErrorView::Constraint("corrupt replicated row: "@ + e@),
            None => ErrorView::Constraint("replicated row is not a document"@),
        }),
{
    match corrupt {
        Some(e) => EngineError::Constraint(cat("corrupt replicated row: ", e)),
        None => constraint("replicated row is not a document"),
    }
}

/// The entries of the indexes as a set of index names and keys.
pub type EntrySet = Set<(Seq<char>, Seq<u8>)>;

/// A set of entries after a run of changes.
pub open spec fn after_ops(s: EntrySet, ops: Seq<OpView>) -> EntrySet
    decreases ops.len(),
{
    if ops.len() == 0 {
        s
    } else {
        let before = after_ops(s, ops.drop_last());
        let o = ops.last();
        if o.put {
            before.insert((o.index, o.key))
        } else {
            before.remove((o.index, o.key))
        }
    }
}

/// Whether an entry belongs to a document under an index on `table`.
pub open spec fn entry_of<D, E: Fn(&Vec<String>, &Vec<u8>, &D) -> Vec<Vec<u8>>>(
    es: Seq<(String, IndexDef)>,
    table: Seq<char>,
    entries: E,
    key: Vec<u8>,
    doc: D,
    e: (Seq<char>, Seq<u8>),
) -> bool {
    exists|i: int|
        0 <= i < es.len() && local_on((#[trigger] es[i]).1, table) && es[i].0@ == e.0 && entry_keys(
            entries,
            key,
            es[i].1.paths,
            doc,
        ).contains(e.1)
}

/// The entries of an optional version.
pub open spec fn version_entries<D, E: Fn(&Vec<String>, &Vec<u8>, &D) -> Vec<Vec<u8>>>(
    es: Seq<(String, IndexDef)>,
    table: Seq<char>,
    entries: E,
    key: Vec<u8>,
    doc: Option<D>,
) -> EntrySet {
    Set::new(
        |e: (Seq<char>, Seq<u8>)| doc matches Some(d) && entry_of(es, table, entries, key, d, e),
    )
}

proof fn lemma_after_concat(s: EntrySet, a: Seq<OpView>, b: Seq<OpView>)
    ensures
        after_ops(s, a + b) == after_ops(after_ops(s, a), b),
    decreases b.len(),
{
    if b.len() == 0 {
        assert(a + b =~= a);
    } else {
        assert((a + b).drop_last() =~= a + b.drop_last());
        assert((a + b).last() == b.last());
        lemma_after_concat(s, a, b.drop_last());
    }
}

proof fn lemma_after_keys(
    s: EntrySet,
    index: Seq<char>,
    row: Seq<u8>,
    keys: Seq<Seq<u8>>,
    put: bool,
)
    ensures
        forall|e: (Seq<char>, Seq<u8>)| #[trigger]
            after_ops(s, key_ops(index, row, keys, put)).contains(e) <==> if e.0 == index
                && keys.contains(e.1) {
                put
            } else {
                s.contains(e)
            },
    decreases keys.len(),
{
    let ops = key_ops(index, row, keys, put);
    if keys.len() > 0 {
        let init = keys.drop_last();
        lemma_after_keys(s, index, row, init, put);
        assert(ops.drop_last() =~= key_ops(index, row, init, put));
        assert(ops.last() == OpView { index, key: keys.last(), row, put });
        assert forall|e: (Seq<char>, Seq<u8>)| #[trigger] after_ops(s, ops).contains(e) <==> if e.0
            == index && keys.contains(e.1) {
            put
        } else {
            s.contains(e)
        } by {
            assert(after_ops(s, key_ops(index, row, init, put)).contains(e) <==> if e.0 == index
                && init.contains(e.1) {
                put
            } else {
                s.contains(e)
            });
            if keys.contains(e.1) {
                let k = choose|k: int| 0 <= k < keys.len() && keys[k] == e.1;
                if k < init.len() {
                    assert(init[k] == e.1);
                }
            }
            if init.contains(e.1) {
                let k = choose|k: int| 0 <= k < init.len() && init[k] == e.1;
                assert(keys[k] == e.1);
            }
            assert(keys[keys.len() - 1] == keys.last());
        }
    }
}

proof fn lemma_after_doc<D, E: Fn(&Vec<String>, &Vec<u8>, &D) -> Vec<Vec<u8>>>(
    s: EntrySet,
    es: Seq<(String, IndexDef)>,
    table: Seq<char>,
    entries: E,
    key: Vec<u8>,
    doc: D,
    put: bool,
)
    ensures
        forall|e: (Seq<char>, Seq<u8>)| #[trigger]
            after_ops(s, doc_ops(es, table, entries, key, doc, put)).contains(e) <==> if entry_of(
                es,
                table,
                entries,
                key,
                doc,
                e,
            ) {
                put
            } else {
                s.contains(e)
            },
    decreases es.len(),
{
    if es.len() > 0 {
        let init = es.drop_last();
        let before = doc_ops(init, table, entries, key, doc, put);
        lemma_after_doc(s, init, table, entries, key, doc, put);
        let ks = entry_keys(entries, key, es.last().1.paths, doc);
        if local_on(es.last().1, table) {
            lemma_after_concat(s, before, key_ops(es.last().0@, key@, ks, put));
            lemma_after_keys(after_ops(s, before), es.last().0@, key@, ks, put);
        }
        assert forall|e: (Seq<char>, Seq<u8>)| #[trigger]
            after_ops(s, doc_ops(es, table, entries, key, doc, put)).contains(e) <==> if entry_of(
                es,
                table,
                entries,
                key,
                doc,
                e,
            ) {
                put
            } else {
                s.contains(e)
            } by {
            assert(after_ops(s, before).contains(e) <==> if entry_of(
                init,
                table,
                entries,
                key,
                doc,
                e,
            ) {
                put
            } else {
                s.contains(e)
            });
            if entry_of(init, table, entries, key, doc, e) {
                let i = choose|i: int|
                    0 <= i < init.len() && local_on((#[trigger] init[i]).1, table) && init[i].0@
                        == e.0 && entry_keys(entries, key, init[i].1.paths, doc).contains(e.1);
                assert(es[i] == init[i]);
            }
            if entry_of(es, table, entries, key, doc, e) {
                let i = choose|i: int|
                    0 <= i < es.len() && local_on((#[trigger] es[i]).1, table) && es[i].0@ == e.0
                        && entry_keys(entries, key, es[i].1.paths, doc).contains(e.1);
                if i < init.len() {
                    assert(init[i] == es[i]);
                }
            }
            assert(es[es.len() - 1] == es.last());
        }
    }
}

/// The entries after one write's maintenance, from the version before it to
/// the one after.
pub open spec fn maintained<D, E: Fn(&Vec<String>, &Vec<u8>, &D) -> Vec<Vec<u8>>>(
    s: EntrySet,
    es: Seq<(String, IndexDef)>,
    table: Seq<char>,
    entries: E,
    key: Vec<u8>,
    old_doc: Option<D>,
    new_doc: Option<D>,
) -> EntrySet {
    after_ops(
        s,
        version_ops(es, table, entries, key, old_doc, false) + version_ops(
            es,
            table,
            entries,
            key,
            new_doc,
            true,
        ),
    )
}

/// One write's maintenance takes the old version's entries away and adds the
/// new one's, and touches no other entry.
pub proof fn maintenance_moves_the_entries<D, E: Fn(&Vec<String>, &Vec<u8>, &D) -> Vec<Vec<u8>>>(
    s: EntrySet,
    es: Seq<(String, IndexDef)>,
    table: Seq<char>,
    entries: E,
    key: Vec<u8>,
    old_doc: Option<D>,
    new_doc: Option<D>,
)
    ensures
        maintained(s, es, table, entries, key, old_doc, new_doc) == s.difference(
            version_entries(es, table, entries, key, old_doc),
        ).union(version_entries(es, table, entries, key, new_doc)),
{
    let dels = version_ops(es, table, entries, key, old_doc, false);
    let puts = version_ops(es, table, entries, key, new_doc, true);
    lemma_after_concat(s, dels, puts);
    let mid = after_ops(s, dels);
    if let Some(d) = old_doc {
        lemma_after_doc(s, es, table, entries, key, d, false);
    }
    if let Some(d) = new_doc {
        lemma_after_doc(mid, es, table, entries, key, d, true);
    }
    let gone = version_entries(es, table, entries, key, old_doc);
    let came = version_entries(es, table, entries, key, new_doc);
    assert forall|e: (Seq<char>, Seq<u8>)| #[trigger] after_ops(mid, puts).contains(e)
        <==> s.difference(gone).union(came).contains(e) by {
        assert(mid.contains(e) <==> s.contains(e) && !gone.contains(e));
    }
    assert(after_ops(mid, puts) =~= s.difference(gone).union(came));
}

/// The entries after the maintenance of a row's versions is replayed, from the
/// first version, which is the base, to the last.
pub open spec fn replayed_versions<D, E: Fn(&Vec<String>, &Vec<u8>, &D) -> Vec<Vec<u8>>>(
    s: EntrySet,
    es: Seq<(String, IndexDef)>,
    table: Seq<char>,
    entries: E,
    key: Vec<u8>,
    docs: Seq<Option<D>>,
) -> EntrySet
    decreases docs.len(),
{
    if docs.len() <= 1 {
        s
    } else {
        maintained(
            replayed_versions(s, es, table, entries, key, docs.drop_last()),
            es,
            table,
            entries,
            key,
            docs[docs.len() - 2],
            docs.last(),
        )
    }
}

/// Whether an entry belongs to one of a row's versions from `from` on.
pub open spec fn of_some_version<D, E: Fn(&Vec<String>, &Vec<u8>, &D) -> Vec<Vec<u8>>>(
    es: Seq<(String, IndexDef)>,
    table: Seq<char>,
    entries: E,
    key: Vec<u8>,
    docs: Seq<Option<D>>,
    from: int,
    e: (Seq<char>, Seq<u8>),
) -> bool {
    exists|i: int|
        from <= i < docs.len() && #[trigger] version_entries(es, table, entries, key, docs[i]).contains(e)
}

proof fn lemma_replay<D, E: Fn(&Vec<String>, &Vec<u8>, &D) -> Vec<Vec<u8>>>(
    s: EntrySet,
    others: EntrySet,
    es: Seq<(String, IndexDef)>,
    table: Seq<char>,
    entries: E,
    key: Vec<u8>,
    docs: Seq<Option<D>>,
    n: int,
)
    requires
        2 <= n <= docs.len(),
        others.subset_of(s),
        forall|e: (Seq<char>, Seq<u8>)| #[trigger]
            s.contains(e) ==> others.contains(e) || of_some_version(
                es,
                table,
                entries,
                key,
                docs,
                0,
                e,
            ),
        forall|e: (Seq<char>, Seq<u8>)| #[trigger]
            others.contains(e) ==> !of_some_version(es, table, entries, key, docs, 0, e),
    ensures
        ({
            let t = replayed_versions(s, es, table, entries, key, docs.take(n));
            &&& others.subset_of(t)
            &&& version_entries(es, table, entries, key, docs[n - 1]).subset_of(t)
            &&& forall|e: (Seq<char>, Seq<u8>)| #[trigger]
                t.contains(e) ==> others.contains(e) || of_some_version(
                    es,
                    table,
                    entries,
                    key,
                    docs,
                    n - 1,
                    e,
                )
        }),
    decreases n,
{
    let pre = docs.take(n).drop_last();
    assert(pre =~= docs.take(n - 1));
    let before = replayed_versions(s, es, table, entries, key, pre);
    if n > 2 {
        lemma_replay(s, others, es, table, entries, key, docs, n - 1);
    } else {
        assert(before == s);
    }
    let o = docs[n - 2];
    let d = docs[n - 1];
    assert(docs.take(n)[n - 2] == o);
    assert(docs.take(n).last() == d);
    maintenance_moves_the_entries(before, es, table, entries, key, o, d);
    let t = replayed_versions(s, es, table, entries, key, docs.take(n));
    let gone = version_entries(es, table, entries, key, o);
    let came = version_entries(es, table, entries, key, d);
    assert(t == before.difference(gone).union(came));
    assert forall|e: (Seq<char>, Seq<u8>)| #[trigger] t.contains(e) implies others.contains(e)
        || of_some_version(es, table, entries, key, docs, n - 1, e) by {
        if came.contains(e) {
            assert(version_entries(es, table, entries, key, docs[n - 1]).contains(e));
        } else {
            assert(before.contains(e) && !gone.contains(e));
            if !others.contains(e) {
                assert(of_some_version(es, table, entries, key, docs, n - 2, e));
                let i = choose|i: int|
                    n - 2 <= i < docs.len() && #[trigger] version_entries(
                        es,
                        table,
                        entries,
                        key,
                        docs[i],
                    ).contains(e);
                assert(i >= n - 1);
            }
        }
    }
    assert forall|e: (Seq<char>, Seq<u8>)| others.contains(e) implies t.contains(e) by {
        if gone.contains(e) {
            assert(version_entries(es, table, entries, key, docs[n - 2]).contains(e));
            assert(of_some_version(es, table, entries, key, docs, 0, e));
        }
    }
}

/// Replaying a row's maintenance after a crash leaves exactly the entries of
/// its last version beside those of other rows, whichever part of the
/// maintenance had been applied before: re-applying what was applied is
/// harmless, and what was not is made up for.
pub proof fn replay_leaves_the_last_version<D, E: Fn(&Vec<String>, &Vec<u8>, &D) -> Vec<Vec<u8>>>(
    s: EntrySet,
    others: EntrySet,
    es: Seq<(String, IndexDef)>,
    table: Seq<char>,
    entries: E,
    key: Vec<u8>,
    docs: Seq<Option<D>>,
)
    requires
        docs.len() >= 2,
        others.subset_of(s),
        forall|e: (Seq<char>, Seq<u8>)| #[trigger]
            s.contains(e) ==> others.contains(e) || of_some_version(
                es,
                table,
                entries,
                key,
                docs,
                0,
                e,
            ),
        forall|e: (Seq<char>, Seq<u8>)| #[trigger]
            others.contains(e) ==> !of_some_version(es, table, entries, key, docs, 0, e),
    ensures
        replayed_versions(s, es, table, entries, key, docs) == others.union(
            version_entries(es, table, entries, key, docs.last()),
        ),
{
    let n = docs.len() as int;
    lemma_replay(s, others, es, table, entries, key, docs, n);
    assert(docs.take(n) =~= docs);
    let t = replayed_versions(s, es, table, entries, key, docs);
    let last = version_entries(es, table, entries, key, docs.last());
    assert forall|e: (Seq<char>, Seq<u8>)| #[trigger] t.contains(e) implies others.union(
        last,
    ).contains(e) by {
        if !others.contains(e) {
            let i = choose|i: int|
                n - 1 <= i < docs.len() && #[trigger] version_entries(
                    es,
                    table,
                    entries,
                    key,
                    docs[i],
                ).contains(e);
            assert(i == n - 1);
        }
    }
    assert(t =~= others.union(last));
}

/// The entry keys of a version of a row under an index's paths; none where
/// there is no row.
pub open spec fn version_keys<D, E: Fn(&Vec<String>, &Vec<u8>, &D) -> Vec<Vec<u8>>>(
    entries: E,
    key: Vec<u8>,
    paths: Vec<String>,
    doc: Option<D>,
) -> Seq<Seq<u8>> {
    match doc {
        Some(d) => entry_keys(entries, key, paths, d),
        None => Seq::empty(),
    }
}

/// What a row's change does to the entries of the global indexes on its table:
/// for each, in name order, the entries that only the old version has are
/// deleted and those that only the new one has are put.
pub open spec fn global_ops<D, E: Fn(&Vec<String>, &Vec<u8>, &D) -> Vec<Vec<u8>>>(
    es: Seq<(String, IndexDef)>,
    table: Seq<char>,
    entries: E,
    key: Vec<u8>,
    before: Option<D>,
    after: Option<D>,
) -> Seq<OpView>
    decreases es.len(),
{
    if es.len() == 0 {
        Seq::empty()
    } else {
        let ops = global_ops(es.drop_last(), table, entries, key, before, after);
        let (name, def) = es.last();
        if def.table@ == table && def.global {
            let was = version_keys(entries, key, def.paths, before);
            let is = version_keys(entries, key, def.paths, after);
            ops + key_ops(name@, key@, sorted_missing(was, is), false) + key_ops(
                name@,
                key@,
                sorted_missing(is, was),
                true,
            )
        } else {
            ops
        }
    }
}

/// A version of a row that is referred to.
pub open spec fn version_of<D>(d: Option<&D>) -> Option<D> {
    match d {
        Some(x) => Some(*x),
        None => None,
    }
}

fn keys_of_version<D, E: Fn(&Vec<String>, &Vec<u8>, &D) -> Vec<Vec<u8>>>(
    entries: &E,
    key: &Vec<u8>,
    paths: &Vec<String>,
    doc: Option<&D>,
) -> (r: Vec<Vec<u8>>)
    requires
        is_entry_function::<D, E>(*entries),
    ensures
        key_views(r@) == version_keys(*entries, *key, *paths, version_of(doc)),
{
    match doc {
        None => {
            let none: Vec<Vec<u8>> = Vec::new();
            proof {
                assert(key_views(none@) =~= Seq::<Seq<u8>>::empty());
            }
            none
        },
        Some(d) => {
            let ks = entries(paths, key, d);
            proof {
                assert(call_ensures(*entries, (paths, key, d), ks));
                assert(key_views(ks@) == entry_keys(*entries, *key, *paths, *d));
            }
            ks
        },
    }
}

fn plan_global<D, E: Fn(&Vec<String>, &Vec<u8>, &D) -> Vec<Vec<u8>>>(
    m: &SortedMap<String, IndexDef>,
    table: &str,
    key: &Vec<u8>,
    before: Option<&D>,
    after: Option<&D>,
    entries: &E,
) -> (r: Vec<IndexOp>)
    requires
        m.wf(),
        is_entry_function::<D, E>(*entries),
    ensures
        op_views(r@) == global_ops(
            m.entries@,
            table@,
            *entries,
            *key,
            version_of(before),
            version_of(after),
        ),
{
    let ghost es = m.entries@;
    let mut out: Vec<IndexOp> = Vec::new();
    let mut i: usize = 0;
    proof {
        assert(es.take(0) =~= Seq::<(String, IndexDef)>::empty());
        assert(op_views(out@) =~= Seq::<OpView>::empty());
    }
    while i < m.len()
        invariant
            m.wf(),
            is_entry_function::<D, E>(*entries),
            es == m.entries@,
            i <= es.len(),
            op_views(out@) == global_ops(
                es.take(i as int),
                table@,
                *entries,
                *key,
                version_of(before),
                version_of(after),
            ),
        decreases es.len() - i,
    {
        proof {
            assert(es.take(i + 1).drop_last() =~= es.take(i as int));
            assert(es.take(i + 1).last() == es[i as int]);
        }
        let name = m.key_at(i);
        let def = m.value_at(i);
        if str_eq(def.table.as_str(), table) && def.global {
            let was = keys_of_version(entries, key, &def.paths, before);
            let is = keys_of_version(entries, key, &def.paths, after);
            let (gone, come) = global_entry_delta(&was, &is);
            proof {
                assert(crate::point_keys::key_views(was@) =~= key_views(was@));
                assert(crate::point_keys::key_views(is@) =~= key_views(is@));
                assert(crate::point_keys::key_views(gone@) =~= key_views(gone@));
                assert(crate::point_keys::key_views(come@) =~= key_views(come@));
            }
            push_key_ops(&mut out, name, key, gone, false);
            push_key_ops(&mut out, name, key, come, true);
        }
        i = i + 1;
    }
    proof {
        assert(es.take(es.len() as int) =~= es);
    }
    out
}

impl Database {
    /// What a put of a row does to the entries of its table's global indexes:
    /// `before` is the row that is overwritten, and `entries` gives the entries
    /// of a row under an index's paths. An entry that stays is not touched.
    pub fn maintain_global_put<D, E: Fn(&Vec<String>, &Vec<u8>, &D) -> Vec<Vec<u8>>>(
        &self,
        table: &str,
        key: &Vec<u8>,
        before: Option<&D>,
        after: &D,
        entries: &E,
    ) -> (r: Vec<IndexOp>)
        requires
            self.wf(),
            is_entry_function::<D, E>(*entries),
        ensures
            op_views(r@) == global_ops(
                self.catalog.indexes.entries@,
                table@,
                *entries,
                *key,
                version_of(before),
                Some(*after),
            ),
    {
        plan_global(&self.catalog.indexes, table, key, before, Some(after), entries)
    }

    /// What a delete of a row does to the entries of its table's global
    /// indexes: those of the row that goes are deleted.
    pub fn maintain_global_del<D, E: Fn(&Vec<String>, &Vec<u8>, &D) -> Vec<Vec<u8>>>(
        &self,
        table: &str,
        key: &Vec<u8>,
        before: &D,
        entries: &E,
    ) -> (r: Vec<IndexOp>)
        requires
            self.wf(),
            is_entry_function::<D, E>(*entries),
        ensures
            op_views(r@) == global_ops(
                self.catalog.indexes.entries@,
                table@,
                *entries,
                *key,
                Some(*before),
                None,
            ),
    {
        plan_global(&self.catalog.indexes, table, key, Some(before), None, entries)
    }
}

} // verus!
