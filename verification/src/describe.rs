//! `DESCRIBE`: the columns that the catalog knows of a table, and with `FULL`
//! the fields that its rows hold.

use vstd::prelude::*;
use vstd::string::StringExecFns;

use crate::auth::contains_name;
use crate::catalog::def_of;
use crate::catalog::CatalogView;
use crate::catalog::GeoIndexDef;
use crate::catalog::IndexDef;
use crate::catalog::OnTable;
use crate::catalog::SearchIndexDef;
use crate::catalog::VectorIndexDef;
use crate::database::copy_strings;
use crate::database::Database;
use crate::ddl_database::entry_names;
use crate::ddl_database::lemma_ascending_unique;
use crate::ddl_database::lemma_entry_names;
use crate::ddl_database::names_ascend;
use crate::error::EngineError;
use crate::error::ErrorView;
use crate::namespace::split;
use crate::namespace::split_name;
use crate::projection::NameSet;
use crate::show::add_column;
use crate::show::cell_rows;
use crate::show::cells;
use crate::show::txt;
use crate::show::Cell;
use crate::show::CellView;
use crate::show::Listing;
use crate::sorted_map::SortedMap;
use crate::text::cat;
use crate::text::cat3;
use crate::text::decimal;
use crate::text::decimal_of;
use crate::text::has_suffix;
use crate::text::join;
use crate::text::joined;
use crate::text::str_eq;
use crate::text::strip_suffix;
use crate::text::views;
use crate::value::type_label;
use crate::value::value_type_label;
use crate::value::Document;
use crate::value::Value;

verus! {

/// Rows that `DESCRIBE ... FULL` reads where no sample size is given.
pub const DESCRIBE_FULL_DEFAULT_SAMPLE: usize = 1000;

/// For each column the descriptions of the indexes that cover it.
pub type Labels = Map<Seq<char>, Seq<Seq<char>>>;

/// The column that an index path covers: a path over the items of an array
/// covers the array.
pub open spec fn covered_column(path: Seq<char>) -> Seq<char> {
    if has_suffix(path, "[]"@) {
        path.take(path.len() - "[]"@.len())
    } else {
        path
    }
}

/// Labels with one more at a column.
pub open spec fn labelled(m: Labels, col: Seq<char>, label: Seq<char>) -> Labels {
    m.insert(
        col,
        (if m.dom().contains(col) {
            m[col]
        } else {
            Seq::empty()
        }).push(label),
    )
}

/// Labels with one more at each column that a run of paths covers.
pub open spec fn labelled_all(m: Labels, paths: Seq<Seq<char>>, label: Seq<char>) -> Labels
    decreases paths.len(),
{
    if paths.len() == 0 {
        m
    } else {
        labelled(labelled_all(m, paths.drop_last(), label), covered_column(paths.last()), label)
    }
}

/// The description of an index: its bare name and its kind.
pub open spec fn index_label(name: Seq<char>, kind: Seq<char>) -> Seq<char> {
    split_name(name).1 + " ("@ + kind + ")"@
}

/// An index definition that covers columns.
pub trait Covering: OnTable {
    /// The paths that an index covers.
    spec fn covered_paths(v: Self::V) -> Seq<Seq<char>>;

    /// The kind that an index is described as.
    spec fn kind_of(v: Self::V) -> Seq<char>;

    fn paths_covered(&self) -> (r: Vec<String>)
        ensures
            views(r@) == Self::covered_paths(self@),
    ;

    fn kind_text(&self) -> (r: &'static str)
        ensures
            r@ == Self::kind_of(self@),
    ;
}

fn one_path(p: &String) -> (r: Vec<String>)
    ensures
        views(r@) == seq![p@],
{
    let mut r: Vec<String> = Vec::new();
    r.push(p.clone());
    proof {
        assert(views(r@) =~= seq![p@]);
    }
    r
}

impl Covering for IndexDef {
    open spec fn covered_paths(v: crate::catalog::IndexView) -> Seq<Seq<char>> {
        v.paths
    }

    open spec fn kind_of(v: crate::catalog::IndexView) -> Seq<char> {
        if v.building {
            "secondary, building"@
        } else {
            "secondary"@
        }
    }

    fn paths_covered(&self) -> (r: Vec<String>) {
        copy_strings(&self.paths)
    }

    fn kind_text(&self) -> (r: &'static str) {
        if self.building {
            "secondary, building"
        } else {
            "secondary"
        }
    }
}

impl Covering for VectorIndexDef {
    open spec fn covered_paths(v: crate::catalog::VectorIndexView) -> Seq<Seq<char>> {
        seq![v.path]
    }

    open spec fn kind_of(v: crate::catalog::VectorIndexView) -> Seq<char> {
        "vector"@
    }

    fn paths_covered(&self) -> (r: Vec<String>) {
        one_path(&self.path)
    }

    fn kind_text(&self) -> (r: &'static str) {
        "vector"
    }
}

impl Covering for SearchIndexDef {
    open spec fn covered_paths(v: crate::catalog::SearchIndexView) -> Seq<Seq<char>> {
        v.paths
    }

    open spec fn kind_of(v: crate::catalog::SearchIndexView) -> Seq<char> {
        "search"@
    }

    fn paths_covered(&self) -> (r: Vec<String>) {
        copy_strings(&self.paths)
    }

    fn kind_text(&self) -> (r: &'static str) {
        "search"
    }
}

impl Covering for GeoIndexDef {
    open spec fn covered_paths(v: crate::catalog::GeoIndexView) -> Seq<Seq<char>> {
        seq![v.path]
    }

    open spec fn kind_of(v: crate::catalog::GeoIndexView) -> Seq<char> {
        "geo"@
    }

    fn paths_covered(&self) -> (r: Vec<String>) {
        one_path(&self.path)
    }

    fn kind_text(&self) -> (r: &'static str) {
        "geo"
    }
}

/// Labels with those of a run of index definitions on `table`.
pub open spec fn with_indexes<D: Covering>(m: Labels, es: Seq<(String, D)>, table: Seq<char>) -> Labels
    decreases es.len(),
{
    if es.len() == 0 {
        m
    } else {
        let before = with_indexes(m, es.drop_last(), table);
        let v = es.last().1@;
        if D::table_of(v) == table {
            labelled_all(before, D::covered_paths(v), index_label(es.last().0@, D::kind_of(v)))
        } else {
            before
        }
    }
}

/// The columns of a table's key, in order; a time-series table's ends in `ts`.
pub open spec fn described_key(v: CatalogView, table: Seq<char>) -> Option<Seq<Seq<char>>> {
    if v.tables.dom().contains(table) {
        Some(v.tables[table].primary_key)
    } else if v.timeseries.dom().contains(table) {
        Some(v.timeseries[table].series_key.push("ts"@))
    } else {
        None
    }
}

/// The labels of all the indexes on `table`.
pub open spec fn table_labels(db: Database, table: Seq<char>) -> Labels {
    let a = with_indexes(Map::empty(), db.catalog.indexes.entries@, table);
    let b = with_indexes(a, db.catalog.vector_indexes.entries@, table);
    let c = with_indexes(b, db.catalog.search_indexes.entries@, table);
    with_indexes(c, db.catalog.geo_indexes.entries@, table)
}

/// Labels as a map holds them.
pub open spec fn labels_view(m: SortedMap<String, Vec<String>>) -> Labels {
    m@.map_values(|v: Vec<String>| views(v@))
}

fn add_label(m: &mut SortedMap<String, Vec<String>>, col: String, label: String)
    requires
        old(m).wf(),
    ensures
        final(m).wf(),
        labels_view(*final(m)) == labelled(labels_view(*old(m)), col@, label@),
{
    let ghost before = labels_view(*m);
    let mut list = match m.remove(&col) {
        Some(l) => l,
        None => Vec::new(),
    };
    let ghost had = views(list@);
    list.push(label);
    proof {
        assert(views(list@) =~= had.push(label@));
        if !before.dom().contains(col@) {
            assert(had =~= Seq::<Seq<char>>::empty());
        }
    }
    m.insert(col, list);
    proof {
        assert(labels_view(*m) =~= labelled(before, col@, label@));
    }
}

fn column_of_path(p: &str) -> (r: String)
    ensures
        r@ == covered_column(p@),
{
    match strip_suffix(p, "[]") {
        Some(s) => s,
        None => p.to_owned(),
    }
}

fn add_labels(m: &mut SortedMap<String, Vec<String>>, paths: &Vec<String>, label: &String)
    requires
        old(m).wf(),
    ensures
        final(m).wf(),
        labels_view(*final(m)) == labelled_all(labels_view(*old(m)), views(paths@), label@),
{
    let ghost start = labels_view(*m);
    let ghost ps = views(paths@);
    let mut i: usize = 0;
    proof {
        assert(ps.take(0) =~= Seq::<Seq<char>>::empty());
    }
    while i < paths.len()
        invariant
            m.wf(),
            ps == views(paths@),
            i <= paths@.len(),
            labels_view(*m) == labelled_all(start, ps.take(i as int), label@),
        decreases paths@.len() - i,
    {
        proof {
            assert(ps.take(i + 1).drop_last() =~= ps.take(i as int));
            assert(ps.take(i + 1).last() == paths@[i as int]@);
        }
        add_label(m, column_of_path(paths[i].as_str()), label.clone());
        i = i + 1;
    }
    proof {
        assert(ps.take(ps.len() as int) =~= ps);
    }
}

fn add_indexes<D: Covering>(
    m: &mut SortedMap<String, Vec<String>>,
    indexes: &SortedMap<String, D>,
    table: &str,
)
    requires
        old(m).wf(),
        indexes.wf(),
    ensures
        final(m).wf(),
        labels_view(*final(m)) == with_indexes(labels_view(*old(m)), indexes.entries@, table@),
{
    let ghost start = labels_view(*m);
    let ghost es = indexes.entries@;
    let mut i: usize = 0;
    proof {
        assert(es.take(0) =~= Seq::<(String, D)>::empty());
    }
    while i < indexes.len()
        invariant
            m.wf(),
            indexes.wf(),
            es == indexes.entries@,
            i <= es.len(),
            labels_view(*m) == with_indexes(start, es.take(i as int), table@),
        decreases es.len() - i,
    {
        proof {
            assert(es.take(i + 1).drop_last() =~= es.take(i as int));
            assert(es.take(i + 1).last() == es[i as int]);
        }
        let def = indexes.value_at(i);
        if def.on_table(table) {
            let (_db, bare) = split(indexes.key_at(i).as_str());
            let mut label = cat3(bare.as_str(), " (", def.kind_text());
            label.append(")");
            add_labels(m, &def.paths_covered(), &label);
        }
        i = i + 1;
    }
    proof {
        assert(es.take(es.len() as int) =~= es);
    }
}

/// What the catalog knows of a table's columns: those of its key, and the
/// indexes that cover each.
pub struct Described {
    pub pk: Vec<String>,
    pub index_of: SortedMap<String, Vec<String>>,
}

impl Database {
    /// What the catalog knows of a table's columns.
    pub fn describe_catalog(&self, table: &str) -> (r: Result<Described, EngineError>)
        requires
            self.wf(),
        ensures
            match described_key(self@.cat, table@) {
                Some(pk) => r matches Ok(d) && views(d.pk@) == pk && d.index_of.wf() && labels_view(
                    d.index_of,
                ) == table_labels(*self, table@),
                None => r matches Err(e) && e@ == ErrorView::TableNotFound(table@),
            },
    {
        let table_owned = table.to_owned();
        let pk = match def_of(&self.catalog.tables, &table_owned) {
            Some(d) => copy_strings(&d.primary_key),
            None => match def_of(&self.catalog.timeseries, &table_owned) {
                Some(d) => {
                    let mut k = copy_strings(&d.series_key);
                    add_column(&mut k, "ts");
                    k
                },
                None => {
                    return Err(EngineError::TableNotFound(table_owned));
                },
            },
        };
        let mut index_of: SortedMap<String, Vec<String>> = SortedMap::new();
        proof {
            assert(labels_view(index_of) =~= Map::<Seq<char>, Seq<Seq<char>>>::empty());
        }
        add_indexes(&mut index_of, &self.catalog.indexes, table);
        add_indexes(&mut index_of, &self.catalog.vector_indexes, table);
        add_indexes(&mut index_of, &self.catalog.search_indexes, table);
        add_indexes(&mut index_of, &self.catalog.geo_indexes, table);
        Ok(Described { pk, index_of })
    }
}

/// The first place of a column in a key, or its length.
pub open spec fn key_place(pk: Seq<Seq<char>>, col: Seq<char>) -> int
    decreases pk.len(),
{
    if pk.len() == 0 {
        0
    } else if pk[0] == col {
        0
    } else {
        1 + key_place(pk.skip(1), col)
    }
}

/// What a column is to a key.
pub open spec fn key_cell(pk: Seq<Seq<char>>, col: Seq<char>) -> Seq<char> {
    let i = key_place(pk, col);
    if i >= pk.len() {
        ""@
    } else if pk.len() == 1 {
        "primary key"@
    } else {
        "primary key ("@ + decimal((i + 1) as nat) + "/"@ + decimal(pk.len()) + ")"@
    }
}

/// What a column is to a key: all of it, one of its columns, or nothing.
pub fn describe_key_cell(pk: &Vec<String>, col: &str) -> (r: String)
    ensures
        r@ == key_cell(views(pk@), col@),
{
    let ghost ps = views(pk@);
    let mut i: usize = 0;
    proof {
        assert(ps.skip(0) =~= ps);
        assert(ps.len() == pk@.len());
    }
    while i < pk.len()
        invariant
            ps == views(pk@),
            ps.len() == pk.len(),
            i <= pk@.len(),
            key_place(ps, col@) == i + key_place(ps.skip(i as int), col@),
        decreases pk@.len() - i,
    {
        proof {
            assert(ps.skip(i as int)[0] == pk@[i as int]@);
            assert(ps.skip(i as int).skip(1) =~= ps.skip(i + 1));
        }
        if str_eq(pk[i].as_str(), col) {
            if pk.len() == 1 {
                return "primary key".to_owned();
            }
            let mut out = cat("primary key (", decimal_of(i as u64 + 1).as_str());
            out.append("/");
            out.append(decimal_of(pk.len() as u64).as_str());
            out.append(")");
            return out;
        }
        i = i + 1;
    }
    proof {
        assert(ps.skip(ps.len() as int).len() == 0);
    }
    "".to_owned()
}

/// The names of a set in order.
pub open spec fn in_order(s: Set<Seq<char>>) -> Seq<Seq<char>> {
    choose|ns: Seq<Seq<char>>| names_ascend(ns) && forall|n: Seq<char>| #[trigger]
        ns.contains(n) <==> s.contains(n)
}

pub proof fn lemma_in_order(s: NameSet)
    requires
        s.wf(),
    ensures
        entry_names(s.names.entries@) == in_order(s@),
{
    let es = s.names.entries@;
    lemma_entry_names(es);
    let a = entry_names(es);
    assert(names_ascend(a) && forall|n: Seq<char>| #[trigger] a.contains(n) <==> s@.contains(n));
    let b = in_order(s@);
    assert(names_ascend(b) && forall|n: Seq<char>| #[trigger] b.contains(n) <==> s@.contains(n));
    assert forall|n: Seq<char>| #[trigger] a.contains(n) <==> b.contains(n) by {
        assert(a.contains(n) <==> s@.contains(n));
        assert(b.contains(n) <==> s@.contains(n));
    }
    lemma_ascending_unique(a, b);
}

/// The columns of a description: those of the key in key order, then the
/// others in name order.
pub open spec fn column_order(pk: Seq<Seq<char>>, others: Set<Seq<char>>) -> Seq<Seq<char>> {
    pk + in_order(others.filter(|n: Seq<char>| !pk.contains(n)))
}

/// The descriptions of the indexes that cover a column.
pub open spec fn labels_cell(m: Labels, col: Seq<char>) -> Seq<char> {
    if m.dom().contains(col) {
        joined(m[col], ", "@)
    } else {
        ""@
    }
}

fn labels_of(m: &SortedMap<String, Vec<String>>, col: &String) -> (r: String)
    requires
        m.wf(),
    ensures
        r@ == labels_cell(labels_view(*m), col@),
{
    match m.get(col) {
        Some(l) => join(l, ", "),
        None => "".to_owned(),
    }
}

/// For each field of a table's rows the kinds of value seen in it.
pub struct FieldTypes {
    pub kinds: SortedMap<String, NameSet>,
}

impl View for FieldTypes {
    type V = Map<Seq<char>, Set<Seq<char>>>;

    open spec fn view(&self) -> Map<Seq<char>, Set<Seq<char>>> {
        self.kinds@.map_values(|s: NameSet| s@)
    }
}

/// Kinds with one more at a field.
pub open spec fn with_kind(m: Map<Seq<char>, Set<Seq<char>>>, field: Seq<char>, kind: Seq<char>) -> Map<
    Seq<char>,
    Set<Seq<char>>,
> {
    m.insert(
        field,
        (if m.dom().contains(field) {
            m[field]
        } else {
            Set::empty()
        }).insert(kind),
    )
}

/// Kinds with those of a document's top-level fields.
pub open spec fn with_fields(m: Map<Seq<char>, Set<Seq<char>>>, fs: Seq<(String, Value)>) -> Map<
    Seq<char>,
    Set<Seq<char>>,
>
    decreases fs.len(),
{
    if fs.len() == 0 {
        m
    } else {
        with_kind(with_fields(m, fs.drop_last()), fs.last().0@, type_label(fs.last().1))
    }
}

impl FieldTypes {
    pub open spec fn wf(&self) -> bool {
        self.kinds.wf() && forall|n: Seq<char>|
            self.kinds@.dom().contains(n) ==> (#[trigger] self.kinds@[n]).wf()
    }

    /// No field.
    pub fn new() -> (r: FieldTypes)
        ensures
            r.wf(),
            r@ == Map::<Seq<char>, Set<Seq<char>>>::empty(),
    {
        let r = FieldTypes { kinds: SortedMap::new() };
        proof {
            assert(r@ =~= Map::<Seq<char>, Set<Seq<char>>>::empty());
        }
        r
    }

    fn note_field(&mut self, field: &String, kind: &str)
        requires
            old(self).wf(),
        ensures
            final(self).wf(),
            final(self)@ == with_kind(old(self)@, field@, kind@),
    {
        let mut set = match self.kinds.remove(field) {
            Some(s) => s,
            None => NameSet::new(),
        };
        set.add_name(kind.to_owned());
        self.kinds.insert(field.clone(), set);
        proof {
            assert(self@ =~= with_kind(old(self)@, field@, kind@));
        }
    }

    /// Takes in the top-level fields of one row's document. Only names and
    /// kinds are kept, so that a scan of any length stays small.
    pub fn note_document(&mut self, doc: &Document)
        requires
            old(self).wf(),
            doc.fields.wf(),
        ensures
            final(self).wf(),
            final(self)@ == with_fields(old(self)@, doc.fields.entries@),
    {
        let ghost start = self@;
        let ghost fs = doc.fields.entries@;
        let mut i: usize = 0;
        proof {
            assert(fs.take(0) =~= Seq::<(String, Value)>::empty());
        }
        while i < doc.fields.len()
            invariant
                self.wf(),
                doc.fields.wf(),
                fs == doc.fields.entries@,
                i <= fs.len(),
                self@ == with_fields(start, fs.take(i as int)),
            decreases fs.len() - i,
        {
            proof {
                assert(fs.take(i + 1).drop_last() =~= fs.take(i as int));
                assert(fs.take(i + 1).last() == fs[i as int]);
            }
            self.note_field(doc.fields.key_at(i), value_type_label(doc.fields.value_at(i)));
            i = i + 1;
        }
        proof {
            assert(fs.take(fs.len() as int) =~= fs);
        }
    }
}

/// The kinds of a field as they are shown.
pub open spec fn kinds_cell(m: Map<Seq<char>, Set<Seq<char>>>, field: Seq<char>) -> Seq<char> {
    if m.dom().contains(field) {
        joined(in_order(m[field]), " | "@)
    } else {
        ""@
    }
}

fn kinds_of(t: &FieldTypes, field: &String) -> (r: String)
    requires
        t.wf(),
    ensures
        r@ == kinds_cell(t@, field@),
{
    match t.kinds.get(field) {
        None => "".to_owned(),
        Some(set) => {
            proof {
                assert(t.kinds@[field@].wf());
                lemma_in_order(*set);
            }
            let names = names_of_set(set);
            join(&names, " | ")
        },
    }
}

/// The names of a set, in order.
pub fn names_of_set(s: &NameSet) -> (r: Vec<String>)
    requires
        s.wf(),
    ensures
        views(r@) == entry_names(s.names.entries@),
{
    let ghost es = s.names.entries@;
    let mut out: Vec<String> = Vec::new();
    let mut i: usize = 0;
    proof {
        assert(views(out@) =~= entry_names(es.take(0)));
    }
    while i < s.names.len()
        invariant
            s.wf(),
            es == s.names.entries@,
            i <= es.len(),
            views(out@) == entry_names(es.take(i as int)),
        decreases es.len() - i,
    {
        let ghost before = views(out@);
        out.push(s.names.key_at(i).clone());
        proof {
            assert(views(out@) =~= before.push(es[i as int].0@));
            assert(entry_names(es.take(i + 1)) =~= entry_names(es.take(i as int)).push(
                es[i as int].0@,
            ));
        }
        i = i + 1;
    }
    proof {
        assert(es.take(es.len() as int) =~= es);
    }
    out
}

fn add_other_keys<V>(set: &mut NameSet, m: &SortedMap<String, V>, pk: &Vec<String>)
    requires
        old(set).wf(),
        m.wf(),
    ensures
        final(set).wf(),
        final(set)@ == old(set)@.union(
            m@.dom().filter(|n: Seq<char>| !views(pk@).contains(n)),
        ),
{
    let ghost start = set@;
    let ghost es = m.entries@;
    let ghost ps = views(pk@);
    let mut i: usize = 0;
    while i < m.len()
        invariant
            set.wf(),
            m.wf(),
            es == m.entries@,
            ps == views(pk@),
            i <= es.len(),
            forall|n: Seq<char>| #[trigger]
                set@.contains(n) <==> start.contains(n) || (!ps.contains(n) && entry_names(
                    es.take(i as int),
                ).contains(n)),
        decreases es.len() - i,
    {
        let ghost before = set@;
        let ghost names = entry_names(es.take(i as int));
        let ghost next = entry_names(es.take(i + 1));
        if !contains_name(pk, m.key_at(i).as_str()) {
            set.add_name(m.key_at(i).clone());
        }
        proof {
            assert(next =~= names.push(es[i as int].0@));
            assert forall|n: Seq<char>| #[trigger]
                set@.contains(n) <==> start.contains(n) || (!ps.contains(n) && next.contains(n)) by {
                assert(before.contains(n) <==> start.contains(n) || (!ps.contains(n)
                    && names.contains(n)));
                if next.contains(n) {
                    let p = choose|p: int| 0 <= p < next.len() && next[p] == n;
                    if p < names.len() {
                        assert(names[p] == n);
                    }
                }
                if names.contains(n) {
                    let p = choose|p: int| 0 <= p < names.len() && names[p] == n;
                    assert(next[p] == n);
                }
                assert(next[names.len() as int] == es[i as int].0@);
            }
        }
        i = i + 1;
    }
    proof {
        assert(es.take(es.len() as int) =~= es);
        lemma_entry_names(es);
        assert(set@ =~= start.union(m@.dom().filter(|n: Seq<char>| !ps.contains(n)))) by {
            assert forall|n: Seq<char>| #[trigger]
                set@.contains(n) <==> start.union(
                    m@.dom().filter(|n: Seq<char>| !ps.contains(n)),
                ).contains(n) by {
                assert(entry_names(es).contains(n) <==> m@.dom().contains(n));
            }
        }
    }
}

fn ordered_columns(d: &Described, types: &FieldTypes) -> (r: Vec<String>)
    requires
        d.index_of.wf(),
        types.wf(),
    ensures
        views(r@) == column_order(
            views(d.pk@),
            labels_view(d.index_of).dom().union(types@.dom()),
        ),
{
    let ghost ps = views(d.pk@);
    let mut rest = NameSet::new();
    add_other_keys(&mut rest, &d.index_of, &d.pk);
    add_other_keys(&mut rest, &types.kinds, &d.pk);
    let mut out = copy_strings(&d.pk);
    let mut names = names_of_set(&rest);
    proof {
        lemma_in_order(rest);
        let want = labels_view(d.index_of).dom().union(types@.dom()).filter(
            |n: Seq<char>| !ps.contains(n),
        );
        assert(rest@ =~= want);
    }
    let ghost a = out@;
    let ghost b = names@;
    out.append(&mut names);
    proof {
        assert(views(out@) =~= views(a) + views(b));
    }
    out
}

/// A described column's row.
pub open spec fn describe_row(pk: Seq<Seq<char>>, labels: Labels, col: Seq<char>) -> Seq<CellView> {
    seq![txt(col), txt(key_cell(pk, col)), txt(labels_cell(labels, col))]
}

/// A described column's row with the kinds seen in it.
pub open spec fn describe_full_row(
    pk: Seq<Seq<char>>,
    labels: Labels,
    kinds: Map<Seq<char>, Set<Seq<char>>>,
    col: Seq<char>,
) -> Seq<CellView> {
    seq![
        txt(col),
        txt(kinds_cell(kinds, col)),
        txt(key_cell(pk, col)),
        txt(labels_cell(labels, col)),
    ]
}

impl Database {
    /// `DESCRIBE`: one row for each column of the table's key or of an index,
    /// those of the key first and the others in name order. Fields that are in
    /// neither are not in the catalog.
    pub fn describe(&self, table: &str) -> (r: Result<Listing, EngineError>)
        requires
            self.wf(),
        ensures
            match described_key(self@.cat, table@) {
                None => r matches Err(e) && e@ == ErrorView::TableNotFound(table@),
                Some(pk) => r matches Ok(l) && views(l.columns@) == seq![
                    "column"@,
                    "key"@,
                    "indexes"@,
                ] && ({
                    let labels = table_labels(*self, table@);
                    cell_rows(l.rows@) == column_order(pk, labels.dom()).map_values(
                        |c: Seq<char>| describe_row(pk, labels, c),
                    )
                }),
            },
    {
        let d = match self.describe_catalog(table) {
            Err(e) => {
                return Err(e);
            },
            Ok(d) => d,
        };
        let ghost pk = views(d.pk@);
        let ghost labels = labels_view(d.index_of);
        let types = FieldTypes::new();
        let order = ordered_columns(&d, &types);
        proof {
            assert(labels.dom().union(types@.dom()) =~= labels.dom());
        }
        let mut rows: Vec<Vec<Cell>> = Vec::new();
        let mut i: usize = 0;
        let ghost f = |c: Seq<char>| describe_row(pk, labels, c);
        proof {
            assert(cell_rows(rows@) =~= views(order@).take(0).map_values(f));
        }
        while i < order.len()
            invariant
                d.index_of.wf(),
                pk == views(d.pk@),
                labels == labels_view(d.index_of),
                f == (|c: Seq<char>| describe_row(pk, labels, c)),
                i <= order@.len(),
                cell_rows(rows@) == views(order@).take(i as int).map_values(f),
            decreases order@.len() - i,
        {
            let ghost before = cell_rows(rows@);
            let mut row: Vec<Cell> = Vec::new();
            row.push(Cell::Text(order[i].clone()));
            row.push(Cell::Text(describe_key_cell(&d.pk, order[i].as_str())));
            row.push(Cell::Text(labels_of(&d.index_of, &order[i])));
            proof {
                assert(cells(row@) =~= f(order@[i as int]@));
            }
            rows.push(row);
            proof {
                assert(cell_rows(rows@) =~= before.push(f(order@[i as int]@)));
                assert(views(order@).take(i + 1).map_values(f) =~= before.push(
                    f(order@[i as int]@),
                ));
            }
            i = i + 1;
        }
        proof {
            assert(views(order@).take(order@.len() as int) =~= views(order@));
        }
        let mut columns: Vec<String> = Vec::new();
        proof {
            assert(views(columns@) =~= Seq::<Seq<char>>::empty());
        }
        add_column(&mut columns, "column");
        add_column(&mut columns, "key");
        add_column(&mut columns, "indexes");
        proof {
            assert(views(columns@) =~= seq!["column"@, "key"@, "indexes"@]);
        }
        Ok(Listing { columns, rows })
    }

    /// `DESCRIBE ... FULL`: the columns that the catalog knows and every field
    /// seen in the rows, with the kinds of value in each.
    pub fn describe_full(&self, table: &str, types: &FieldTypes) -> (r: Result<Listing, EngineError>)
        requires
            self.wf(),
            types.wf(),
        ensures
            match described_key(self@.cat, table@) {
                None => r matches Err(e) && e@ == ErrorView::TableNotFound(table@),
                Some(pk) => r matches Ok(l) && views(l.columns@) == seq![
                    "column"@,
                    "type"@,
                    "key"@,
                    "indexes"@,
                ] && ({
                    let labels = table_labels(*self, table@);
                    cell_rows(l.rows@) == column_order(
                        pk,
                        labels.dom().union(types@.dom()),
                    ).map_values(|c: Seq<char>| describe_full_row(pk, labels, types@, c))
                }),
            },
    {
        let d = match self.describe_catalog(table) {
            Err(e) => {
                return Err(e);
            },
            Ok(d) => d,
        };
        let ghost pk = views(d.pk@);
        let ghost labels = labels_view(d.index_of);
        let order = ordered_columns(&d, types);
        let mut rows: Vec<Vec<Cell>> = Vec::new();
        let mut i: usize = 0;
        let ghost f = |c: Seq<char>| describe_full_row(pk, labels, types@, c);
        proof {
            assert(cell_rows(rows@) =~= views(order@).take(0).map_values(f));
        }
        while i < order.len()
            invariant
                d.index_of.wf(),
                types.wf(),
                pk == views(d.pk@),
                labels == labels_view(d.index_of),
                f == (|c: Seq<char>| describe_full_row(pk, labels, types@, c)),
                i <= order@.len(),
                cell_rows(rows@) == views(order@).take(i as int).map_values(f),
            decreases order@.len() - i,
        {
            let ghost before = cell_rows(rows@);
            let mut row: Vec<Cell> = Vec::new();
            row.push(Cell::Text(order[i].clone()));
            row.push(Cell::Text(kinds_of(types, &order[i])));
            row.push(Cell::Text(describe_key_cell(&d.pk, order[i].as_str())));
            row.push(Cell::Text(labels_of(&d.index_of, &order[i])));
            proof {
                assert(cells(row@) =~= f(order@[i as int]@));
            }
            rows.push(row);
            proof {
                assert(cell_rows(rows@) =~= before.push(f(order@[i as int]@)));
                assert(views(order@).take(i + 1).map_values(f) =~= before.push(
                    f(order@[i as int]@),
                ));
            }
            i = i + 1;
        }
        proof {
            assert(views(order@).take(order@.len() as int) =~= views(order@));
        }
        let mut columns: Vec<String> = Vec::new();
        proof {
            assert(views(columns@) =~= Seq::<Seq<char>>::empty());
        }
        add_column(&mut columns, "column");
        add_column(&mut columns, "type");
        add_column(&mut columns, "key");
        add_column(&mut columns, "indexes");
        proof {
            assert(views(columns@) =~= seq!["column"@, "type"@, "key"@, "indexes"@]);
        }
        Ok(Listing { columns, rows })
    }
}

/// The rows that `DESCRIBE ... FULL` reads: all of them where the answer is to
/// be exact, else a sample.
pub fn describe_sample(sample: Option<usize>, exact: bool) -> (r: usize)
    ensures
        r == (if exact {
            usize::MAX
        } else {
            match sample {
                Some(n) => n,
                None => DESCRIBE_FULL_DEFAULT_SAMPLE,
            }
        }),
{
    if exact {
        return usize::MAX;
    }
    match sample {
        Some(n) => n,
        None => DESCRIBE_FULL_DEFAULT_SAMPLE,
    }
}

/// The exact field kinds of tables, each good while the table's write counter
/// is what it was when they were read.
pub struct FieldRegistry {
    pub cached: SortedMap<String, (u64, FieldTypes)>,
}

impl FieldRegistry {
    pub open spec fn wf(&self) -> bool {
        self.cached.wf()
    }

    /// Nothing is cached.
    pub fn new() -> (r: FieldRegistry)
        ensures
            r.wf(),
            r.cached@ == Map::<Seq<char>, (u64, FieldTypes)>::empty(),
    {
        FieldRegistry { cached: SortedMap::new() }
    }

    /// The cached kinds of a table whose write counter is `seq`. A table whose
    /// rows expire is never served from here: its rows change without a write.
    pub fn lookup(&self, table: &str, seq: u64, has_ttl: bool) -> (r: Option<&FieldTypes>)
        requires
            self.wf(),
        ensures
            r is Some <==> !has_ttl && self.cached@.dom().contains(table@) && self.cached@[table@].0
                == seq,
            r matches Some(t) ==> *t == self.cached@[table@].1,
    {
        if has_ttl {
            return None;
        }
        match self.cached.get(&table.to_owned()) {
            Some(e) => if e.0 == seq {
                Some(&e.1)
            } else {
                None
            },
            None => None,
        }
    }

    /// Caches the kinds that a full scan found at the write counter `seq`.
    pub fn remember(&mut self, table: &str, seq: u64, has_ttl: bool, types: FieldTypes)
        requires
            old(self).wf(),
        ensures
            final(self).wf(),
            final(self).cached@ == (if has_ttl {
                old(self).cached@
            } else {
                old(self).cached@.insert(table@, (seq, types))
            }),
    {
        if !has_ttl {
            self.cached.insert(table.to_owned(), (seq, types));
        }
    }
}

} // verus!
