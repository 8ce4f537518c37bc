//! `SHOW`: what the catalog lists of databases, tables, indexes and grants.

use vstd::prelude::*;
use vstd::string::StringExecFns;

use crate::catalog::GeoIndexDef;
use crate::catalog::IndexDef;
use crate::catalog::SearchIndexDef;
use crate::catalog::TableDef;
use crate::catalog::TsTableDef;
use crate::catalog::VectorIndexDef;
use crate::database::Database;
use crate::database::DbView;
use crate::ddl_database::names_ascend;
use crate::namespace::belongs_to;
use crate::namespace::in_database;
use crate::namespace::is_gidx_table;
use crate::namespace::names_gidx_table;
use crate::namespace::split;
use crate::namespace::split_name;
use crate::projection::NameSet;
use crate::sorted_map::SortedMap;
use crate::text::cat;
use crate::text::cat3;
use crate::text::decimal;
use crate::text::decimal_of;
use crate::text::join;
use crate::text::joined;
use crate::text::seq_lt;
use crate::text::str_eq;
use crate::text::str_lt;
use crate::text::views;

verus! {

/// One cell of a listing.
pub enum Cell {
    Null,
    Bool(bool),
    Int(i64),
    Text(String),
}

pub enum CellView {
    Null,
    Bool(bool),
    Int(i64),
    Text(Seq<char>),
}

impl View for Cell {
    type V = CellView;

    open spec fn view(&self) -> CellView {
        match *self {
            Cell::Null => CellView::Null,
            Cell::Bool(b) => CellView::Bool(b),
            Cell::Int(n) => CellView::Int(n),
            Cell::Text(s) => CellView::Text(s@),
        }
    }
}

/// A row by what its cells hold.
pub open spec fn cells(row: Seq<Cell>) -> Seq<CellView> {
    row.map_values(|c: Cell| c@)
}

/// Rows by what their cells hold.
pub open spec fn cell_rows(rows: Seq<Vec<Cell>>) -> Seq<Seq<CellView>> {
    rows.map_values(|r: Vec<Cell>| cells(r@))
}

/// The name in a row's first cell.
pub open spec fn row_name(row: Seq<CellView>) -> Seq<char> {
    match row[0] {
        CellView::Text(s) => s,
        _ => Seq::empty(),
    }
}

/// The place where a row goes into rows that are in name order: behind those
/// of the same name.
pub open spec fn name_slot(rows: Seq<Seq<CellView>>, name: Seq<char>) -> int
    decreases rows.len(),
{
    if rows.len() == 0 {
        0
    } else if seq_lt(name, row_name(rows[0])) {
        0
    } else {
        1 + name_slot(rows.skip(1), name)
    }
}

/// Rows in name order, those of one name in the order they came.
pub open spec fn by_name(rows: Seq<Seq<CellView>>) -> Seq<Seq<CellView>>
    decreases rows.len(),
{
    if rows.len() == 0 {
        Seq::empty()
    } else {
        let before = by_name(rows.drop_last());
        before.insert(name_slot(before, row_name(rows.last())), rows.last())
    }
}

proof fn lemma_name_slot(rows: Seq<Seq<CellView>>, name: Seq<char>)
    ensures
        0 <= name_slot(rows, name) <= rows.len(),
    decreases rows.len(),
{
    if rows.len() > 0 {
        lemma_name_slot(rows.skip(1), name);
    }
}

proof fn lemma_name_slot_is(rows: Seq<Seq<CellView>>, name: Seq<char>, k: int)
    requires
        0 <= k <= rows.len(),
        forall|i: int| 0 <= i < k ==> !seq_lt(name, row_name(#[trigger] rows[i])),
        k < rows.len() ==> seq_lt(name, row_name(rows[k])),
    ensures
        name_slot(rows, name) == k,
    decreases rows.len(),
{
    if rows.len() > 0 && k > 0 {
        assert(!seq_lt(name, row_name(rows[0])));
        let rest = rows.skip(1);
        assert forall|i: int| 0 <= i < k - 1 implies !seq_lt(name, row_name(#[trigger] rest[i])) by {
            assert(rest[i] == rows[i + 1]);
        }
        if k < rows.len() {
            assert(rest[k - 1] == rows[k]);
        }
        lemma_name_slot_is(rest, name, k - 1);
    }
}

fn name_of_row(row: &Vec<Cell>) -> (r: &str)
    requires
        row@.len() > 0,
    ensures
        r@ == row_name(cells(row@)),
{
    proof {
        assert(cells(row@)[0] == row@[0]@);
    }
    match &row[0] {
        Cell::Text(s) => s.as_str(),
        _ => {
            proof {
                reveal_strlit("");
                assert(""@ =~= Seq::<char>::empty());
            }
            ""
        },
    }
}

/// Puts rows in name order, those of one name in the order they came.
fn sort_rows(rows: Vec<Vec<Cell>>) -> (r: Vec<Vec<Cell>>)
    requires
        forall|i: int| 0 <= i < rows@.len() ==> (#[trigger] rows@[i])@.len() > 0,
    ensures
        cell_rows(r@) == by_name(cell_rows(rows@)),
{
    let ghost all = cell_rows(rows@);
    let ghost orig = rows@;
    let rest = rows;
    let mut out: Vec<Vec<Cell>> = Vec::new();
    proof {
        assert(all.take(0) =~= Seq::<Seq<CellView>>::empty());
        assert(cell_rows(out@) =~= Seq::<Seq<CellView>>::empty());
    }
    for row in it: rest
        invariant
            all == cell_rows(orig),
            it.seq() == orig,
            cell_rows(out@) == by_name(all.take(it.index() as int)),
            forall|i: int| 0 <= i < orig.len() ==> (#[trigger] orig[i])@.len() > 0,
            forall|i: int| 0 <= i < out@.len() ==> (#[trigger] out@[i])@.len() > 0,
    {
        let ghost done = it.index() as int;
        let ghost before = cell_rows(out@);
        proof {
            assert(row == orig[done]);
            assert(all.take(done + 1).drop_last() =~= all.take(done));
            assert(all.take(done + 1).last() == cells(row@));
        }
        let mut k: usize = 0;
        while k < out.len() && !str_lt(name_of_row(&row), name_of_row(&out[k]))
            invariant
                row@.len() > 0,
                k <= out@.len(),
                before == cell_rows(out@),
                forall|i: int| 0 <= i < out@.len() ==> (#[trigger] out@[i])@.len() > 0,
                forall|i: int|
                    0 <= i < k ==> !seq_lt(row_name(cells(row@)), row_name(#[trigger] before[i])),
            decreases out@.len() - k,
        {
            proof {
                assert(before[k as int] == cells(out@[k as int]@));
            }
            k = k + 1;
        }
        proof {
            if k < out@.len() {
                assert(before[k as int] == cells(out@[k as int]@));
            }
            lemma_name_slot_is(before, row_name(cells(row@)), k as int);
        }
        let ghost held = out@;
        out.insert(k, row);
        proof {
            assert(cell_rows(out@) =~= before.insert(k as int, cells(row@)));
            assert forall|i: int| 0 <= i < out@.len() implies (#[trigger] out@[i])@.len() > 0 by {
                if i < k {
                    assert(out@[i] == held[i]);
                } else if i > k {
                    assert(out@[i] == held[i - 1]);
                }
            }
            done = done + 1;
        }
    }
    proof {
        assert(all.take(all.len() as int) =~= all);
    }
    out
}

/// Rows in name order do ascend by name.
pub proof fn listings_ascend_by_name(rows: Seq<Seq<CellView>>)
    ensures
        by_name(rows).len() == rows.len(),
        forall|i: int, j: int|
            0 <= i < j < rows.len() ==> !seq_lt(
                row_name(#[trigger] by_name(rows)[j]),
                row_name(#[trigger] by_name(rows)[i]),
            ),
    decreases rows.len(),
{
    if rows.len() > 0 {
        let before = by_name(rows.drop_last());
        listings_ascend_by_name(rows.drop_last());
        let name = row_name(rows.last());
        let k = name_slot(before, name);
        lemma_name_slot(before, name);
        lemma_slot_bounds(before, name);
        let out = by_name(rows);
        assert forall|i: int, j: int| 0 <= i < j < rows.len() implies !seq_lt(
            row_name(#[trigger] out[j]),
            row_name(#[trigger] out[i]),
        ) by {
            if i < k && j == k {
                assert(out[i] == before[i]);
            } else if i == k && j > k {
                assert(out[j] == before[j - 1]);
                crate::text::lemma_seq_lt_irrefl(name);
                if seq_lt(row_name(before[j - 1]), name) {
                    assert(seq_lt(name, row_name(before[k])));
                    crate::text::lemma_seq_lt_trans(
                        row_name(before[j - 1]),
                        name,
                        row_name(before[k]),
                    );
                    if j - 1 > k {
                        assert(!seq_lt(row_name(before[j - 1]), row_name(before[k])));
                    } else {
                        crate::text::lemma_seq_lt_irrefl(row_name(before[k]));
                    }
                }
            } else {
                let a = if i < k {
                    i
                } else {
                    i - 1
                };
                let b = if j < k {
                    j
                } else {
                    j - 1
                };
                assert(out[i] == before[a]);
                assert(out[j] == before[b]);
            }
        }
    }
}

proof fn lemma_slot_bounds(rows: Seq<Seq<CellView>>, name: Seq<char>)
    ensures
        forall|i: int|
            0 <= i < name_slot(rows, name) ==> !seq_lt(name, row_name(#[trigger] rows[i])),
        name_slot(rows, name) < rows.len() ==> seq_lt(name, row_name(rows[name_slot(rows, name)])),
    decreases rows.len(),
{
    if rows.len() > 0 && !seq_lt(name, row_name(rows[0])) {
        let rest = rows.skip(1);
        lemma_slot_bounds(rest, name);
        lemma_name_slot(rest, name);
        let k = name_slot(rest, name);
        assert forall|i: int| 0 <= i < k + 1 implies !seq_lt(
            name,
            row_name(#[trigger] rows[i]),
        ) by {
            if i > 0 {
                assert(rest[i - 1] == rows[i]);
            }
        }
        if k < rest.len() {
            assert(rest[k] == rows[k + 1]);
        }
    }
}

fn text(s: &str) -> (c: Cell)
    ensures
        c@ == CellView::Text(s@),
{
    Cell::Text(s.to_owned())
}

/// A text cell.
pub open spec fn txt(s: Seq<char>) -> CellView {
    CellView::Text(s)
}

/// The rows that `f` makes of a run of entries, one after the other.
pub open spec fn rows_of<D>(
    es: Seq<(String, D)>,
    f: spec_fn(Seq<char>, D) -> Option<Seq<CellView>>,
) -> Seq<Seq<CellView>>
    decreases es.len(),
{
    if es.len() == 0 {
        Seq::empty()
    } else {
        let before = rows_of(es.drop_last(), f);
        match f(es.last().0@, es.last().1) {
            Some(row) => before.push(row),
            None => before,
        }
    }
}

/// The key of a time-series table as it is listed.
pub open spec fn series_key_text(def: TsTableDef) -> Seq<char> {
    joined(views(def.series_key@), ", "@) + ", ts"@
}

/// A table's row: its name and its key. A global index's entry table has none.
pub open spec fn table_row(name: Seq<char>, def: TableDef) -> Option<Seq<CellView>> {
    if names_gidx_table(name) {
        None
    } else {
        Some(seq![txt(name), txt(joined(views(def.primary_key@), ", "@))])
    }
}

/// A time-series table's row.
pub open spec fn series_row(name: Seq<char>, def: TsTableDef) -> Option<Seq<CellView>> {
    Some(seq![txt(name), txt(series_key_text(def))])
}

/// The number of copies that a table asks for: its own, one per pinned node,
/// or nothing for the cluster's default.
pub open spec fn copies_cell(def: TableDef) -> CellView {
    match def.replication {
        Some(n) => CellView::Int(n as i64),
        None => if def.pinned_nodes@.len() > 0 {
            CellView::Int(def.pinned_nodes@.len() as i64)
        } else {
            CellView::Null
        },
    }
}

/// A table's row in its database's listing.
pub open spec fn table_row_in(db: Seq<char>, name: Seq<char>, def: TableDef) -> Option<
    Seq<CellView>,
> {
    if !in_database(name, db) || names_gidx_table(name) {
        None
    } else {
        Some(
            seq![
                txt(split_name(name).1),
                txt(joined(views(def.primary_key@), ", "@)),
                copies_cell(def),
                if def.pinned_nodes@.len() == 0 {
                    CellView::Null
                } else {
                    txt(joined(views(def.pinned_nodes@), ","@))
                },
                CellView::Bool(def.witness),
                CellView::Bool(def.prev_placement is Some),
                txt("row"@),
            ],
        )
    }
}

/// A time-series table's row in its database's listing. Time-series tables are
/// always mirrored and never in transition; a rollup says that it is one.
pub open spec fn series_row_in(db: Seq<char>, name: Seq<char>, def: TsTableDef) -> Option<
    Seq<CellView>,
> {
    if !in_database(name, db) {
        None
    } else {
        Some(
            seq![
                txt(split_name(name).1),
                txt(series_key_text(def)),
                CellView::Null,
                CellView::Null,
                CellView::Bool(true),
                CellView::Bool(false),
                txt(
                    if def.rollup_of is Some {
                        "rollup"@
                    } else {
                        "timeseries"@
                    },
                ),
            ],
        )
    }
}

/// A listing: its columns and rows.
pub struct Listing {
    pub columns: Vec<String>,
    pub rows: Vec<Vec<Cell>>,
}

fn series_key_of(def: &TsTableDef) -> (r: String)
    ensures
        r@ == series_key_text(*def),
{
    cat(join(&def.series_key, ", ").as_str(), ", ts")
}

fn row2(a: Cell, b: Cell) -> (r: Vec<Cell>)
    ensures
        cells(r@) == seq![a@, b@],
        r@.len() > 0,
{
    let mut r: Vec<Cell> = Vec::new();
    r.push(a);
    r.push(b);
    proof {
        assert(cells(r@) =~= seq![a@, b@]);
    }
    r
}

fn row7(a: Cell, b: Cell, c: Cell, d: Cell, e: Cell, f: Cell, g: Cell) -> (r: Vec<Cell>)
    ensures
        cells(r@) == seq![a@, b@, c@, d@, e@, f@, g@],
        r@.len() > 0,
{
    let mut r: Vec<Cell> = Vec::new();
    r.push(a);
    r.push(b);
    r.push(c);
    r.push(d);
    r.push(e);
    r.push(f);
    r.push(g);
    proof {
        assert(cells(r@) =~= seq![a@, b@, c@, d@, e@, f@, g@]);
    }
    r
}

fn row5(a: Cell, b: Cell, c: Cell, d: Cell, e: Cell) -> (r: Vec<Cell>)
    ensures
        cells(r@) == seq![a@, b@, c@, d@, e@],
        r@.len() > 0,
{
    let mut r: Vec<Cell> = Vec::new();
    r.push(a);
    r.push(b);
    r.push(c);
    r.push(d);
    r.push(e);
    proof {
        assert(cells(r@) =~= seq![a@, b@, c@, d@, e@]);
    }
    r
}

fn make_table_row(name: &String, def: &TableDef) -> (r: Option<Vec<Cell>>)
    ensures
        opt_cells(r) == table_row(name@, *def),
        has_cells(r),
{
    if is_gidx_table(name.as_str()) {
        return None;
    }
    Some(row2(text(name.as_str()), Cell::Text(join(&def.primary_key, ", "))))
}

/// Whether an optional row has a cell.
pub open spec fn has_cells(r: Option<Vec<Cell>>) -> bool {
    r matches Some(row) ==> row@.len() > 0
}

/// An optional row by what its cells hold.
pub open spec fn opt_cells(r: Option<Vec<Cell>>) -> Option<Seq<CellView>> {
    match r {
        Some(row) => Some(cells(row@)),
        None => None,
    }
}

fn make_series_row(name: &String, def: &TsTableDef) -> (r: Option<Vec<Cell>>)
    ensures
        opt_cells(r) == series_row(name@, *def),
        has_cells(r),
{
    Some(row2(text(name.as_str()), Cell::Text(series_key_of(def))))
}

fn make_table_row_in(db: &str, name: &String, def: &TableDef) -> (r: Option<Vec<Cell>>)
    ensures
        opt_cells(r) == table_row_in(db@, name@, *def),
        has_cells(r),
{
    if !belongs_to(name.as_str(), db) || is_gidx_table(name.as_str()) {
        return None;
    }
    let copies = match def.replication {
        Some(n) => Cell::Int(n as i64),
        None => if def.pinned_nodes.len() > 0 {
            Cell::Int(def.pinned_nodes.len() as i64)
        } else {
            Cell::Null
        },
    };
    let nodes = if def.pinned_nodes.len() == 0 {
        Cell::Null
    } else {
        Cell::Text(join(&def.pinned_nodes, ","))
    };
    Some(
        row7(
            Cell::Text(split(name.as_str()).1),
            Cell::Text(join(&def.primary_key, ", ")),
            copies,
            nodes,
            Cell::Bool(def.witness),
            Cell::Bool(def.prev_placement.is_some()),
            text("row"),
        ),
    )
}

fn make_series_row_in(db: &str, name: &String, def: &TsTableDef) -> (r: Option<Vec<Cell>>)
    ensures
        opt_cells(r) == series_row_in(db@, name@, *def),
        has_cells(r),
{
    if !belongs_to(name.as_str(), db) {
        return None;
    }
    Some(
        row7(
            Cell::Text(split(name.as_str()).1),
            Cell::Text(series_key_of(def)),
            Cell::Null,
            Cell::Null,
            Cell::Bool(true),
            Cell::Bool(false),
            text(
                if def.rollup_of.is_some() {
                    "rollup"
                } else {
                    "timeseries"
                },
            ),
        ),
    )
}

/// What makes the rows of a listing out of definitions.
trait Lister<D> {
    spec fn ready(&self) -> bool;

    /// The row of a definition, where it is listed.
    spec fn row_of(&self, name: Seq<char>, def: D) -> Option<Seq<CellView>>;

    fn make_row(&self, name: &String, def: &D) -> (r: Option<Vec<Cell>>)
        requires
            self.ready(),
        ensures
            opt_cells(r) == self.row_of(name@, *def),
            has_cells(r),
    ;
}

/// Lists the tables of all databases.
struct AllTables {}

impl Lister<TableDef> for AllTables {
    spec fn ready(&self) -> bool {
        true
    }

    spec fn row_of(&self, name: Seq<char>, def: TableDef) -> Option<Seq<CellView>> {
        table_row(name, def)
    }

    fn make_row(&self, name: &String, def: &TableDef) -> (r: Option<Vec<Cell>>) {
        make_table_row(name, def)
    }
}

impl Lister<TsTableDef> for AllTables {
    spec fn ready(&self) -> bool {
        true
    }

    spec fn row_of(&self, name: Seq<char>, def: TsTableDef) -> Option<Seq<CellView>> {
        series_row(name, def)
    }

    fn make_row(&self, name: &String, def: &TsTableDef) -> (r: Option<Vec<Cell>>) {
        make_series_row(name, def)
    }
}

/// Lists the tables of one database.
struct TablesIn<'a> {
    db: &'a str,
}

impl<'a> Lister<TableDef> for TablesIn<'a> {
    spec fn ready(&self) -> bool {
        true
    }

    spec fn row_of(&self, name: Seq<char>, def: TableDef) -> Option<Seq<CellView>> {
        table_row_in(self.db@, name, def)
    }

    fn make_row(&self, name: &String, def: &TableDef) -> (r: Option<Vec<Cell>>) {
        make_table_row_in(self.db, name, def)
    }
}

impl<'a> Lister<TsTableDef> for TablesIn<'a> {
    spec fn ready(&self) -> bool {
        true
    }

    spec fn row_of(&self, name: Seq<char>, def: TsTableDef) -> Option<Seq<CellView>> {
        series_row_in(self.db@, name, def)
    }

    fn make_row(&self, name: &String, def: &TsTableDef) -> (r: Option<Vec<Cell>>) {
        make_series_row_in(self.db, name, def)
    }
}

/// Lists the indexes of a database or of all.
struct Indexes<'a> {
    db: &'a Database,
    live: &'a LiveIndexes,
    scope: Option<&'a str>,
}

impl<'a> Lister<IndexDef> for Indexes<'a> {
    spec fn ready(&self) -> bool {
        self.db.wf() && self.live.wf()
    }

    spec fn row_of(&self, name: Seq<char>, def: IndexDef) -> Option<Seq<CellView>> {
        secondary_row(self.db@, *self.live, scope_view(self.scope), name, def)
    }

    fn make_row(&self, name: &String, def: &IndexDef) -> (r: Option<Vec<Cell>>) {
        self.db.make_secondary_row(self.live, self.scope, name, def)
    }
}

impl<'a> Lister<VectorIndexDef> for Indexes<'a> {
    spec fn ready(&self) -> bool {
        self.db.wf() && self.live.wf()
    }

    spec fn row_of(&self, name: Seq<char>, def: VectorIndexDef) -> Option<Seq<CellView>> {
        vector_row(self.db@, *self.live, scope_view(self.scope), name, def)
    }

    fn make_row(&self, name: &String, def: &VectorIndexDef) -> (r: Option<Vec<Cell>>) {
        self.db.make_vector_row(self.live, self.scope, name, def)
    }
}

impl<'a> Lister<GeoIndexDef> for Indexes<'a> {
    spec fn ready(&self) -> bool {
        self.db.wf() && self.live.wf()
    }

    spec fn row_of(&self, name: Seq<char>, def: GeoIndexDef) -> Option<Seq<CellView>> {
        geo_row(self.db@, *self.live, scope_view(self.scope), name, def)
    }

    fn make_row(&self, name: &String, def: &GeoIndexDef) -> (r: Option<Vec<Cell>>) {
        self.db.make_geo_row(self.live, self.scope, name, def)
    }
}

/// Appends the rows that a lister makes of a map's entries.
fn push_rows<D, L: Lister<D>>(
    rows: &mut Vec<Vec<Cell>>,
    m: &SortedMap<String, D>,
    lister: &L,
    Ghost(f): Ghost<spec_fn(Seq<char>, D) -> Option<Seq<CellView>>>,
)
    requires
        m.wf(),
        lister.ready(),
        forall|n: Seq<char>, d: D| #[trigger] f(n, d) == lister.row_of(n, d),
        forall|i: int| 0 <= i < old(rows)@.len() ==> (#[trigger] old(rows)@[i])@.len() > 0,
    ensures
        cell_rows(final(rows)@) == cell_rows(old(rows)@) + rows_of(m.entries@, f),
        forall|i: int| 0 <= i < final(rows)@.len() ==> (#[trigger] final(rows)@[i])@.len() > 0,
{
    let ghost start = cell_rows(rows@);
    let ghost es = m.entries@;
    let mut i: usize = 0;
    proof {
        assert(es.take(0) =~= Seq::<(String, D)>::empty());
        assert(start + rows_of(es.take(0), f) =~= start);
    }
    while i < m.len()
        invariant
            m.wf(),
            lister.ready(),
            es == m.entries@,
            i <= es.len(),
            forall|n: Seq<char>, d: D| #[trigger] f(n, d) == lister.row_of(n, d),
            forall|i: int| 0 <= i < rows@.len() ==> (#[trigger] rows@[i])@.len() > 0,
            cell_rows(rows@) == start + rows_of(es.take(i as int), f),
        decreases es.len() - i,
    {
        proof {
            assert(es.take(i + 1).drop_last() =~= es.take(i as int));
            assert(es.take(i + 1).last() == es[i as int]);
            assert(f(es[i as int].0@, es[i as int].1) == lister.row_of(
                es[i as int].0@,
                es[i as int].1,
            ));
        }
        if let Some(row) = lister.make_row(m.key_at(i), m.value_at(i)) {
            let ghost before = cell_rows(rows@);
            rows.push(row);
            proof {
                assert(cell_rows(rows@) =~= before.push(cells(row@)));
                assert(start + rows_of(es.take(i + 1), f) =~= before.push(cells(row@)));
            }
        }
        i = i + 1;
    }
    proof {
        assert(es.take(es.len() as int) =~= es);
    }
}

/// Adds a column to a listing's.
pub fn add_column(columns: &mut Vec<String>, name: &str)
    ensures
        views(final(columns)@) == views(old(columns)@).push(name@),
{
    let ghost before = views(columns@);
    columns.push(name.to_owned());
    proof {
        assert(views(columns@) =~= before.push(name@));
    }
}

fn two(a: &str, b: &str) -> (r: Vec<String>)
    ensures
        views(r@) == seq![a@, b@],
{
    let mut r: Vec<String> = Vec::new();
    r.push(a.to_owned());
    r.push(b.to_owned());
    proof {
        assert(views(r@) =~= seq![a@, b@]);
    }
    r
}

impl Database {
    /// `SHOW TABLES` over all databases: the tables and their keys, in name
    /// order.
    pub fn show_tables(&self) -> (r: Listing)
        requires
            self.wf(),
        ensures
            views(r.columns@) == seq!["table"@, "primary_key"@],
            cell_rows(r.rows@) == by_name(
                rows_of(
                    self.catalog.tables.entries@,
                    |n: Seq<char>, d: TableDef| table_row(n, d),
                ) + rows_of(
                    self.catalog.timeseries.entries@,
                    |n: Seq<char>, d: TsTableDef| series_row(n, d),
                ),
            ),
    {
        let mut rows: Vec<Vec<Cell>> = Vec::new();
        let ghost ft = |n: Seq<char>, d: TableDef| table_row(n, d);
        let ghost fs = |n: Seq<char>, d: TsTableDef| series_row(n, d);
        push_rows(
            &mut rows,
            &self.catalog.tables,
            &AllTables {  },
            Ghost(ft),
        );
        push_rows(
            &mut rows,
            &self.catalog.timeseries,
            &AllTables {  },
            Ghost(fs),
        );
        proof {
            assert(cell_rows(rows@) =~= rows_of(self.catalog.tables.entries@, ft) + rows_of(
                self.catalog.timeseries.entries@,
                fs,
            ));
        }
        Listing { columns: two("table", "primary_key"), rows: sort_rows(rows) }
    }

    /// `SHOW TABLES` in a session: the tables of its database, under their
    /// bare names.
    pub fn show_tables_in(&self, current_db: &str) -> (r: Listing)
        requires
            self.wf(),
        ensures
            views(r.columns@) == seq![
                "table"@,
                "primary_key"@,
                "replication"@,
                "nodes"@,
                "witness"@,
                "transition"@,
                "kind"@,
            ],
            cell_rows(r.rows@) == by_name(
                rows_of(
                    self.catalog.tables.entries@,
                    |n: Seq<char>, d: TableDef| table_row_in(current_db@, n, d),
                ) + rows_of(
                    self.catalog.timeseries.entries@,
                    |n: Seq<char>, d: TsTableDef| series_row_in(current_db@, n, d),
                ),
            ),
    {
        let mut rows: Vec<Vec<Cell>> = Vec::new();
        let ghost ft = |n: Seq<char>, d: TableDef| table_row_in(current_db@, n, d);
        let ghost fs = |n: Seq<char>, d: TsTableDef| series_row_in(current_db@, n, d);
        push_rows(
            &mut rows,
            &self.catalog.tables,
            &TablesIn { db: current_db },
            Ghost(ft),
        );
        push_rows(
            &mut rows,
            &self.catalog.timeseries,
            &TablesIn { db: current_db },
            Ghost(fs),
        );
        proof {
            assert(cell_rows(rows@) =~= rows_of(self.catalog.tables.entries@, ft) + rows_of(
                self.catalog.timeseries.entries@,
                fs,
            ));
        }
        let mut columns = two("table", "primary_key");
        add_column(&mut columns, "replication");
        add_column(&mut columns, "nodes");
        add_column(&mut columns, "witness");
        add_column(&mut columns, "transition");
        add_column(&mut columns, "kind");
        proof {
            assert(views(columns@) =~= seq![
                "table"@,
                "primary_key"@,
                "replication"@,
                "nodes"@,
                "witness"@,
                "transition"@,
                "kind"@,
            ]);
        }
        Listing { columns, rows: sort_rows(rows) }
    }

    /// `SHOW DATABASES`: every database in name order, the current one marked.
    pub fn show_databases(&self, current_db: &str) -> (r: Listing)
        requires
            self.wf(),
        ensures
            views(r.columns@) == seq!["database"@, "current"@],
            exists|names: Seq<Seq<char>>| #[trigger]
                names_ascend(names) && (forall|n: Seq<char>| #[trigger]
                    names.contains(n) <==> n == "default"@ || self@.cat.databases.contains(n))
                    && cell_rows(r.rows@) == names.map_values(
                    |n: Seq<char>| database_row(n, current_db@),
                ),
    {
        let names = self.database_names();
        let ghost f = |n: Seq<char>| database_row(n, current_db@);
        let mut rows: Vec<Vec<Cell>> = Vec::new();
        let mut i: usize = 0;
        while i < names.len()
            invariant
                i <= names@.len(),
                rows@.len() == i,
                forall|k: int|
                    0 <= k < rows@.len() ==> cells((#[trigger] rows@[k])@) == database_row(
                        names@[k]@,
                        current_db@,
                    ),
            decreases names@.len() - i,
        {
            rows.push(make_database_row(names[i].as_str(), current_db));
            i = i + 1;
        }
        proof {
            assert(cell_rows(rows@) =~= views(names@).map_values(f));
            assert(names_ascend(views(names@)));
        }
        Listing { columns: two("database", "current"), rows }
    }
}

/// A database's row.
pub open spec fn database_row(name: Seq<char>, current: Seq<char>) -> Seq<CellView> {
    seq![
        txt(name),
        txt(
            if name == current {
                "*"@
            } else {
                ""@
            },
        ),
    ]
}

fn make_database_row(name: &str, current: &str) -> (r: Vec<Cell>)
    ensures
        cells(r@) == database_row(name@, current@),
{
    row2(
        text(name),
        text(
            if str_eq(name, current) {
                "*"
            } else {
                ""
            },
        ),
    )
}

/// Which indexes are open on this node.
pub struct LiveIndexes {
    /// Secondary and geo indexes with an open store.
    pub stores: NameSet,
    pub vectors: NameSet,
    pub searches: NameSet,
}

impl LiveIndexes {
    pub open spec fn wf(&self) -> bool {
        self.stores.wf() && self.vectors.wf() && self.searches.wf()
    }
}

/// What sort of index a name is looked up as.
#[derive(Clone, Copy, Debug, PartialEq, Eq, Structural)]
pub enum IndexClass {
    Secondary,
    Vector,
    Search,
    Geo,
}

/// `ok` where something is open, else `missing`.
pub open spec fn open_text(open: bool) -> Seq<char> {
    if open {
        "ok"@
    } else {
        "missing"@
    }
}

/// This node's state of an index that the catalog lists: `building` while it
/// is filled, `ok` where it serves, `missing` where nothing is open. A global
/// index that is built has no state of its own here.
pub open spec fn local_health(v: DbView, live: LiveIndexes, name: Seq<char>, class: IndexClass) -> Seq<
    char,
> {
    match class {
        IndexClass::Secondary => if v.cat.indexes.dom().contains(name)
            && v.cat.indexes[name].building {
            "building"@
        } else if v.cat.indexes.dom().contains(name) && v.cat.indexes[name].global {
            "ok"@
        } else {
            open_text(live.stores@.contains(name))
        },
        IndexClass::Vector => if v.building_vectors.contains(name) {
            "building"@
        } else {
            open_text(live.vectors@.contains(name))
        },
        IndexClass::Search => if live.searches@.contains(name)
            && v.building_searches.contains(name) {
            "building"@
        } else {
            open_text(live.searches@.contains(name))
        },
        IndexClass::Geo => if v.cat.geo_indexes.dom().contains(name)
            && v.cat.geo_indexes[name].building {
            "building"@
        } else {
            open_text(live.stores@.contains(name))
        },
    }
}

fn openness(open: bool) -> (r: &'static str)
    ensures
        r@ == open_text(open),
{
    if open {
        "ok"
    } else {
        "missing"
    }
}

impl Database {
    /// This node's state of an index that the catalog lists.
    pub fn index_local_health(&self, live: &LiveIndexes, name: &str, class: IndexClass) -> (r:
        &'static str)
        requires
            self.wf(),
            live.wf(),
        ensures
            r@ == local_health(self@, *live, name@, class),
    {
        let name_owned = name.to_owned();
        match class {
            IndexClass::Secondary => match crate::catalog::def_of(
                &self.catalog.indexes,
                &name_owned,
            ) {
                Some(d) => if d.building {
                    "building"
                } else if d.global {
                    "ok"
                } else {
                    openness(live.stores.contains(name))
                },
                None => openness(live.stores.contains(name)),
            },
            IndexClass::Vector => if self.building_vectors.contains(name) {
                "building"
            } else {
                openness(live.vectors.contains(name))
            },
            IndexClass::Search => if live.searches.contains(name)
                && self.building_searches.contains(name) {
                "building"
            } else {
                openness(live.searches.contains(name))
            },
            IndexClass::Geo => match crate::catalog::def_of(
                &self.catalog.geo_indexes,
                &name_owned,
            ) {
                Some(d) => if d.building {
                    "building"
                } else {
                    openness(live.stores.contains(name))
                },
                None => openness(live.stores.contains(name)),
            },
        }
    }
}

/// What a listing shows: everything under full names, or one database under
/// bare ones.
pub open spec fn is_shown(scope: Option<Seq<char>>, name: Seq<char>) -> bool {
    match scope {
        Some(db) => in_database(name, db),
        None => true,
    }
}

/// A name as a listing shows it.
pub open spec fn shown(scope: Option<Seq<char>>, name: Seq<char>) -> Seq<char> {
    match scope {
        Some(_) => split_name(name).1,
        None => name,
    }
}

/// The kind of a secondary index.
pub open spec fn index_kind(def: IndexDef) -> Seq<char> {
    if def.global {
        if def.building {
            "global (building)"@
        } else {
            "global"@
        }
    } else if def.building {
        "secondary (building)"@
    } else {
        "secondary"@
    }
}

/// An index's row.
pub open spec fn index_row(
    scope: Option<Seq<char>>,
    name: Seq<char>,
    table: Seq<char>,
    kind: Seq<char>,
    columns: Seq<char>,
    health: Seq<char>,
) -> Option<Seq<CellView>> {
    if is_shown(scope, name) {
        Some(
            seq![
                txt(shown(scope, name)),
                txt(shown(scope, table)),
                txt(kind),
                txt(columns),
                txt(health),
            ],
        )
    } else {
        None
    }
}

/// A secondary index's row.
pub open spec fn secondary_row(
    v: DbView,
    live: LiveIndexes,
    scope: Option<Seq<char>>,
    name: Seq<char>,
    d: IndexDef,
) -> Option<Seq<CellView>> {
    index_row(
        scope,
        name,
        d.table@,
        index_kind(d),
        joined(views(d.paths@), ", "@),
        local_health(v, live, name, IndexClass::Secondary),
    )
}

/// A vector index's row.
pub open spec fn vector_row(
    v: DbView,
    live: LiveIndexes,
    scope: Option<Seq<char>>,
    name: Seq<char>,
    d: VectorIndexDef,
) -> Option<Seq<CellView>> {
    index_row(
        scope,
        name,
        d.table@,
        "vector("@ + d.metric@ + ", dim="@ + decimal(d.dim as nat) + ")"@,
        d.path@,
        local_health(v, live, name, IndexClass::Vector),
    )
}

/// A geo index's row.
pub open spec fn geo_row(
    v: DbView,
    live: LiveIndexes,
    scope: Option<Seq<char>>,
    name: Seq<char>,
    d: GeoIndexDef,
) -> Option<Seq<CellView>> {
    index_row(
        scope,
        name,
        d.table@,
        "geo"@,
        d.path@,
        local_health(v, live, name, IndexClass::Geo),
    )
}

/// The rows of the search indexes; each one's analyzer is given.
pub open spec fn search_rows(
    v: DbView,
    live: LiveIndexes,
    scope: Option<Seq<char>>,
    es: Seq<(String, SearchIndexDef)>,
    analyzers: Seq<Seq<char>>,
) -> Seq<Seq<CellView>>
    decreases es.len(),
{
    if es.len() == 0 {
        Seq::empty()
    } else {
        let before = search_rows(v, live, scope, es.drop_last(), analyzers);
        let e = es.last();
        match index_row(
            scope,
            e.0@,
            e.1.table@,
            "search("@ + analyzers[es.len() - 1] + ")"@,
            joined(views(e.1.paths@), ", "@),
            local_health(v, live, e.0@, IndexClass::Search),
        ) {
            Some(row) => before.push(row),
            None => before,
        }
    }
}

/// A listing's scope by its characters.
pub open spec fn scope_view(scope: Option<&str>) -> Option<Seq<char>> {
    match scope {
        Some(s) => Some(s@),
        None => None,
    }
}

fn show_one(scope: Option<&str>, name: &str) -> (r: String)
    ensures
        r@ == shown(scope_view(scope), name@),
{
    match scope {
        Some(_) => split(name).1,
        None => name.to_owned(),
    }
}

fn make_index_row(
    scope: Option<&str>,
    name: &String,
    table: &String,
    kind: &str,
    columns: String,
    health: &str,
) -> (r: Option<Vec<Cell>>)
    ensures
        opt_cells(r) == index_row(
            scope_view(scope),
            name@,
            table@,
            kind@,
            columns@,
            health@,
        ),
        has_cells(r),
{
    if let Some(db) = scope {
        if !belongs_to(name.as_str(), db) {
            return None;
        }
    }
    Some(
        row5(
            Cell::Text(show_one(scope, name.as_str())),
            Cell::Text(show_one(scope, table.as_str())),
            text(kind),
            Cell::Text(columns),
            text(health),
        ),
    )
}

impl Database {
    fn make_secondary_row(&self, live: &LiveIndexes, scope: Option<&str>, n: &String, d: &IndexDef) -> (r:
        Option<Vec<Cell>>)
        requires
            self.wf(),
            live.wf(),
        ensures
            opt_cells(r) == secondary_row(self@, *live, scope_view(scope), n@, *d),
            has_cells(r),
    {
        let kind = if d.global {
            if d.building {
                "global (building)"
            } else {
                "global"
            }
        } else if d.building {
            "secondary (building)"
        } else {
            "secondary"
        };
        let health = self.index_local_health(live, n.as_str(), IndexClass::Secondary);
        make_index_row(scope, n, &d.table, kind, join(&d.paths, ", "), health)
    }

    fn make_vector_row(
        &self,
        live: &LiveIndexes,
        scope: Option<&str>,
        n: &String,
        d: &VectorIndexDef,
    ) -> (r: Option<Vec<Cell>>)
        requires
            self.wf(),
            live.wf(),
        ensures
            opt_cells(r) == vector_row(self@, *live, scope_view(scope), n@, *d),
            has_cells(r),
    {
        let mut kind = cat3("vector(", d.metric.as_str(), ", dim=");
        kind.append(decimal_of(d.dim as u64).as_str());
        kind.append(")");
        let health = self.index_local_health(live, n.as_str(), IndexClass::Vector);
        make_index_row(scope, n, &d.table, kind.as_str(), d.path.clone(), health)
    }

    fn make_geo_row(&self, live: &LiveIndexes, scope: Option<&str>, n: &String, d: &GeoIndexDef) -> (r:
        Option<Vec<Cell>>)
        requires
            self.wf(),
            live.wf(),
        ensures
            opt_cells(r) == geo_row(self@, *live, scope_view(scope), n@, *d),
            has_cells(r),
    {
        let health = self.index_local_health(live, n.as_str(), IndexClass::Geo);
        make_index_row(scope, n, &d.table, "geo", d.path.clone(), health)
    }

    fn push_search_rows(
        &self,
        rows: &mut Vec<Vec<Cell>>,
        live: &LiveIndexes,
        scope: Option<&str>,
        analyzers: &Vec<String>,
    )
        requires
            self.wf(),
            live.wf(),
            analyzers@.len() == self.catalog.search_indexes.entries@.len(),
            forall|i: int| 0 <= i < old(rows)@.len() ==> (#[trigger] old(rows)@[i])@.len() > 0,
        ensures
            cell_rows(final(rows)@) == cell_rows(old(rows)@) + search_rows(
                self@,
                *live,
                scope_view(scope),
                self.catalog.search_indexes.entries@,
                views(analyzers@),
            ),
            forall|i: int| 0 <= i < final(rows)@.len() ==> (#[trigger] final(rows)@[i])@.len() > 0,
    {
        let m = &self.catalog.search_indexes;
        let ghost start = cell_rows(rows@);
        let ghost es = m.entries@;
        let ghost sc = scope_view(scope);
        let ghost av = views(analyzers@);
        let mut i: usize = 0;
        proof {
            assert(es.take(0) =~= Seq::<(String, SearchIndexDef)>::empty());
            assert(start + search_rows(self@, *live, sc, es.take(0), av) =~= start);
        }
        while i < m.len()
            invariant
                self.wf(),
                live.wf(),
                m == &self.catalog.search_indexes,
                es == m.entries@,
                sc == scope_view(scope),
                av == views(analyzers@),
                analyzers@.len() == es.len(),
                i <= es.len(),
                forall|i: int| 0 <= i < rows@.len() ==> (#[trigger] rows@[i])@.len() > 0,
                cell_rows(rows@) == start + search_rows(self@, *live, sc, es.take(i as int), av),
            decreases es.len() - i,
        {
            proof {
                assert(es.take(i + 1).drop_last() =~= es.take(i as int));
                assert(es.take(i + 1).last() == es[i as int]);
                assert(av[i as int] == analyzers@[i as int]@);
            }
            let n = m.key_at(i);
            let d = m.value_at(i);
            let kind = cat3("search(", analyzers[i].as_str(), ")");
            let health = self.index_local_health(live, n.as_str(), IndexClass::Search);
            if let Some(row) = make_index_row(
                scope,
                n,
                &d.table,
                kind.as_str(),
                join(&d.paths, ", "),
                health,
            ) {
                let ghost before = cell_rows(rows@);
                rows.push(row);
                proof {
                    assert(cell_rows(rows@) =~= before.push(cells(row@)));
                    assert(start + search_rows(self@, *live, sc, es.take(i + 1), av)
                        =~= before.push(cells(row@)));
                }
            }
            i = i + 1;
        }
        proof {
            assert(es.take(es.len() as int) =~= es);
        }
    }

    /// `SHOW INDEXES`: the indexes of all sorts, in name order, with this
    /// node's state of each. With a scope, those of one database under bare
    /// names. `analyzers` are those of the search indexes, in name order.
    pub fn show_indexes(&self, live: &LiveIndexes, scope: Option<&str>, analyzers: &Vec<String>) -> (r:
        Listing)
        requires
            self.wf(),
            live.wf(),
            analyzers@.len() == self.catalog.search_indexes.entries@.len(),
        ensures
            views(r.columns@) == seq!["index"@, "table"@, "kind"@, "columns"@, "local"@],
            cell_rows(r.rows@) == by_name(
                rows_of(
                    self.catalog.indexes.entries@,
                    |n: Seq<char>, d: IndexDef|
                        secondary_row(self@, *live, scope_view(scope), n, d),
                ) + rows_of(
                    self.catalog.vector_indexes.entries@,
                    |n: Seq<char>, d: VectorIndexDef|
                        vector_row(self@, *live, scope_view(scope), n, d),
                ) + search_rows(
                    self@,
                    *live,
                    scope_view(scope),
                    self.catalog.search_indexes.entries@,
                    views(analyzers@),
                ) + rows_of(
                    self.catalog.geo_indexes.entries@,
                    |n: Seq<char>, d: GeoIndexDef|
                        geo_row(self@, *live, scope_view(scope), n, d),
                ),
            ),
    {
        let ghost sc = scope_view(scope);
        let ghost fi = |n: Seq<char>, d: IndexDef| secondary_row(self@, *live, sc, n, d);
        let ghost fv = |n: Seq<char>, d: VectorIndexDef| vector_row(self@, *live, sc, n, d);
        let ghost fg = |n: Seq<char>, d: GeoIndexDef| geo_row(self@, *live, sc, n, d);
        let mut rows: Vec<Vec<Cell>> = Vec::new();
        proof {
            assert(cell_rows(rows@) =~= Seq::<Seq<CellView>>::empty());
        }
        push_rows(
            &mut rows,
            &self.catalog.indexes,
            &Indexes { db: self, live, scope },
            Ghost(fi),
        );
        push_rows(
            &mut rows,
            &self.catalog.vector_indexes,
            &Indexes { db: self, live, scope },
            Ghost(fv),
        );
        self.push_search_rows(&mut rows, live, scope, analyzers);
        push_rows(
            &mut rows,
            &self.catalog.geo_indexes,
            &Indexes { db: self, live, scope },
            Ghost(fg),
        );
        proof {
            assert(cell_rows(rows@) =~= rows_of(self.catalog.indexes.entries@, fi) + rows_of(
                self.catalog.vector_indexes.entries@,
                fv,
            ) + search_rows(
                self@,
                *live,
                sc,
                self.catalog.search_indexes.entries@,
                views(analyzers@),
            ) + rows_of(self.catalog.geo_indexes.entries@, fg));
        }
        let mut columns = two("index", "table");
        add_column(&mut columns, "kind");
        add_column(&mut columns, "columns");
        add_column(&mut columns, "local");
        proof {
            assert(views(columns@) =~= seq!["index"@, "table"@, "kind"@, "columns"@, "local"@]);
        }
        Listing { columns, rows: sort_rows(rows) }
    }
}

} // verus!
