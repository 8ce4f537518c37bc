//! The row writes of a whole statement, in the order they are made.

use vstd::prelude::*;

use crate::ast::Expr;
use crate::error::EngineError;
use crate::error::ErrorView;
use crate::execute::updated_row;
use crate::model::Fields;
use crate::value::Document;
use crate::value::Value;

verus! {

/// One write by what it holds.
pub enum WriteView {
    Put(Seq<u8>, Fields),
    /// A delete, with the row that goes.
    Delete(Seq<u8>, Fields),
}

/// The writes that give a row its new key and document: the new row first, and
/// where the key moved, the delete of the old row after it.
pub open spec fn row_writes(
    old_key: Seq<u8>,
    old_doc: Fields,
    key: Seq<u8>,
    doc: Fields,
) -> Seq<WriteView> {
    if key == old_key {
        seq![WriteView::Put(key, doc)]
    } else {
        seq![WriteView::Put(key, doc), WriteView::Delete(old_key, old_doc)]
    }
}

/// The writes of an `UPDATE` over the rows it matched, up to the first row that
/// cannot be updated, and why that one cannot.
pub open spec fn update_writes<
    F: Fn(&Expr, &Document) -> Result<Value, EngineError>,
    K: Fn(&Vec<&Value>) -> Vec<u8>,
>(
    f: F,
    k: K,
    pk: Seq<Seq<char>>,
    rows: Seq<(Seq<u8>, Fields)>,
    assignments: Seq<(String, Expr)>,
) -> (Seq<WriteView>, Option<ErrorView>)
    decreases rows.len(),
{
    if rows.len() == 0 {
        (Seq::empty(), None)
    } else {
        let (ws, failed) = update_writes(f, k, pk, rows.drop_last(), assignments);
        if failed is Some {
            (ws, failed)
        } else {
            match updated_row(f, k, pk, rows.last().0, rows.last().1, assignments) {
                Err(e) => (ws, Some(e)),
                Ok((key, doc, _)) => (
                    ws + row_writes(rows.last().0, rows.last().1, key, doc),
                    None,
                ),
            }
        }
    }
}

pub proof fn lemma_update_fails<
    F: Fn(&Expr, &Document) -> Result<Value, EngineError>,
    K: Fn(&Vec<&Value>) -> Vec<u8>,
>(
    f: F,
    k: K,
    pk: Seq<Seq<char>>,
    rows: Seq<(Seq<u8>, Fields)>,
    assignments: Seq<(String, Expr)>,
    n: int,
)
    requires
        0 <= n <= rows.len(),
        update_writes(f, k, pk, rows.take(n), assignments).1 is Some,
    ensures
        update_writes(f, k, pk, rows, assignments) == update_writes(
            f,
            k,
            pk,
            rows.take(n),
            assignments,
        ),
    decreases rows.len() - n,
{
    if n == rows.len() {
        assert(rows.take(n) =~= rows);
    } else {
        assert(rows.take(n + 1).drop_last() =~= rows.take(n));
        lemma_update_fails(f, k, pk, rows, assignments, n + 1);
    }
}

/// The writes of an `INSERT` of rows: a put of each.
pub open spec fn insert_writes(rows: Seq<(Seq<u8>, Fields)>) -> Seq<WriteView> {
    rows.map_values(|r: (Seq<u8>, Fields)| WriteView::Put(r.0, r.1))
}

/// The writes of a `DELETE` over the rows that it matched: a delete of each,
/// with the row as it was matched.
pub open spec fn delete_writes(rows: Seq<(Seq<u8>, Fields)>) -> Seq<WriteView> {
    rows.map_values(|r: (Seq<u8>, Fields)| WriteView::Delete(r.0, r.1))
}

/// The rows of a table after one write.
pub open spec fn written(rows: Map<Seq<u8>, Fields>, w: WriteView) -> Map<Seq<u8>, Fields> {
    match w {
        WriteView::Put(key, doc) => rows.insert(key, doc),
        WriteView::Delete(key, _) => rows.remove(key),
    }
}

/// The rows of a table after writes, one after the other.
pub open spec fn all_written(rows: Map<Seq<u8>, Fields>, ws: Seq<WriteView>) -> Map<Seq<u8>, Fields>
    decreases ws.len(),
{
    if ws.len() == 0 {
        rows
    } else {
        written(all_written(rows, ws.drop_last()), ws.last())
    }
}

/// An update that is cut short loses no row: wherever its writes stop, the row
/// is there as it was or as it is to be. When they are all made it is there as
/// it is to be, and no more at its old key; other rows are never touched.
pub proof fn a_cut_update_loses_no_row(
    rows: Map<Seq<u8>, Fields>,
    old_key: Seq<u8>,
    old_doc: Fields,
    key: Seq<u8>,
    doc: Fields,
    n: int,
    other: Seq<u8>,
)
    requires
        rows.contains_pair(old_key, old_doc),
        0 <= n <= row_writes(old_key, old_doc, key, doc).len(),
        other != old_key,
        other != key,
    ensures
        ({
            let ws = row_writes(old_key, old_doc, key, doc);
            let cut = all_written(rows, ws.take(n));
            &&& cut.contains_pair(old_key, old_doc) || cut.contains_pair(key, doc)
            &&& n == ws.len() ==> cut.contains_pair(key, doc) && (key != old_key
                ==> !cut.dom().contains(old_key))
            &&& cut.dom().contains(other) == rows.dom().contains(other)
            &&& rows.dom().contains(other) ==> cut[other] == rows[other]
        }),
{
    let ws = row_writes(old_key, old_doc, key, doc);
    let put = WriteView::Put(key, doc);
    assert(ws.take(0) =~= Seq::<WriteView>::empty());
    assert(ws.take(1) =~= seq![put]);
    assert(seq![put].drop_last() =~= Seq::<WriteView>::empty());
    assert(all_written(rows, Seq::<WriteView>::empty()) == rows);
    assert(all_written(rows, seq![put]) == rows.insert(key, doc));
    if key != old_key {
        assert(ws.take(2) =~= ws);
        assert(ws.drop_last() =~= seq![put]);
        assert(ws.last() == WriteView::Delete(old_key, old_doc));
        assert(all_written(rows, ws) == rows.insert(key, doc).remove(old_key));
    }
}

/// What was inserted is there: the last row of an `INSERT` with a key is stored
/// at it, and every row that it does not name is as it was.
pub proof fn inserted_rows_are_stored(
    rows: Map<Seq<u8>, Fields>,
    new: Seq<(Seq<u8>, Fields)>,
    i: int,
    other: Seq<u8>,
)
    requires
        0 <= i < new.len(),
        forall|j: int| i < j < new.len() ==> (#[trigger] new[j]).0 != new[i].0,
        forall|j: int| 0 <= j < new.len() ==> (#[trigger] new[j]).0 != other,
    ensures
        all_written(rows, insert_writes(new)).contains_pair(new[i].0, new[i].1),
        all_written(rows, insert_writes(new)).dom().contains(other) == rows.dom().contains(other),
        rows.dom().contains(other) ==> all_written(rows, insert_writes(new))[other] == rows[other],
    decreases new.len(),
{
    let init = new.drop_last();
    let last = new.last();
    assert(insert_writes(new).drop_last() =~= insert_writes(init));
    assert(insert_writes(new).last() == WriteView::Put(last.0, last.1));
    assert(new[new.len() - 1] == last);
    lemma_inserts_touch(rows, new, other);
    if i < init.len() {
        assert(init[i] == new[i]);
        assert forall|j: int| i < j < init.len() implies (#[trigger] init[j]).0 != init[i].0 by {
            assert(init[j] == new[j]);
        }
        assert forall|j: int| 0 <= j < init.len() implies (#[trigger] init[j]).0 != other by {
            assert(init[j] == new[j]);
        }
        inserted_rows_are_stored(rows, init, i, other);
    }
}

proof fn lemma_inserts_touch(
    rows: Map<Seq<u8>, Fields>,
    new: Seq<(Seq<u8>, Fields)>,
    other: Seq<u8>,
)
    requires
        forall|j: int| 0 <= j < new.len() ==> (#[trigger] new[j]).0 != other,
    ensures
        all_written(rows, insert_writes(new)).dom().contains(other) == rows.dom().contains(other),
        rows.dom().contains(other) ==> all_written(rows, insert_writes(new))[other] == rows[other],
    decreases new.len(),
{
    if new.len() > 0 {
        let init = new.drop_last();
        assert(insert_writes(new).drop_last() =~= insert_writes(init));
        assert(new[new.len() - 1] == new.last());
        assert forall|j: int| 0 <= j < init.len() implies (#[trigger] init[j]).0 != other by {
            assert(init[j] == new[j]);
        }
        lemma_inserts_touch(rows, init, other);
    }
}

/// What was deleted is gone: no row that a `DELETE` matched is there any more,
/// and every other row is as it was.
pub proof fn deleted_rows_are_gone(
    rows: Map<Seq<u8>, Fields>,
    matched: Seq<(Seq<u8>, Fields)>,
    key: Seq<u8>,
)
    ensures
        ({
            let left = all_written(rows, delete_writes(matched));
            if exists|i: int| 0 <= i < matched.len() && (#[trigger] matched[i]).0 == key {
                !left.dom().contains(key)
            } else {
                left.dom().contains(key) == rows.dom().contains(key) && (rows.dom().contains(key)
                    ==> left[key] == rows[key])
            }
        }),
    decreases matched.len(),
{
    if matched.len() > 0 {
        let init = matched.drop_last();
        assert(delete_writes(matched).drop_last() =~= delete_writes(init));
        assert(delete_writes(matched).last() == WriteView::Delete(
            matched.last().0,
            matched.last().1,
        ));
        assert(matched[matched.len() - 1] == matched.last());
        deleted_rows_are_gone(rows, init, key);
        if exists|i: int| 0 <= i < init.len() && (#[trigger] init[i]).0 == key {
            let i = choose|i: int| 0 <= i < init.len() && (#[trigger] init[i]).0 == key;
            assert(matched[i].0 == key);
        }
        if exists|i: int| 0 <= i < matched.len() && (#[trigger] matched[i]).0 == key {
            let i = choose|i: int| 0 <= i < matched.len() && (#[trigger] matched[i]).0 == key;
            if i < init.len() {
                assert(init[i].0 == key);
            }
        }
    }
}

} // verus!
