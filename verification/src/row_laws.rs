//! What statements make of rows: which ones a filter keeps, what an inserted
//! row holds, what an assignment changes and leaves.

use vstd::prelude::*;

use crate::ast::Expr;
use crate::ast::SelectItem;
use crate::error::EngineError;
use crate::error::ErrorView;
use crate::execute::assigned;
use crate::execute::constant_row;
use crate::execute::encoding;
use crate::execute::evaluated;
use crate::execute::filtered;
use crate::execute::inserted;
use crate::execute::inserted_columns;
use crate::execute::inserted_row;
use crate::execute::inserted_rows;
use crate::execute::key_values;
use crate::execute::row_key;
use crate::execute::updated_row;
use crate::join_laws::can_decide;
use crate::join_laws::is_true_of;
use crate::join_laws::passing_is_being_true;
use crate::model::at_path;
use crate::model::doc_view;
use crate::model::set_path_is_read_back;
use crate::model::value_view;
use crate::model::with_path;
use crate::model::Fields;
use crate::model::ValueView;
use crate::select_plan::name_of;
use crate::text::first_of;
use crate::text::pieces;
use crate::value::Document;
use crate::value::Value;
use crate::writes::all_written;
use crate::writes::row_writes;
use crate::writes::update_writes;
use crate::writes::WriteView;

verus! {

/// A filter keeps the rows that it is true of, in order, and no others. It
/// fails where it cannot be decided on some row, and only there.
pub proof fn filters_keep_what_they_are_true_of<
    F: Fn(&Expr, &Document) -> Result<bool, EngineError>,
>(f: F, filter: Option<Expr>, rows: Seq<(Vec<u8>, Document)>)
    ensures
        filtered(f, filter, rows) is Ok <==> forall|i: int|
            0 <= i < rows.len() ==> can_decide(f, filter, doc_view((#[trigger] rows[i]).1)),
        filtered(f, filter, rows) matches Ok(kept) ==> kept == rows.filter(
            |r: (Vec<u8>, Document)| is_true_of(f, filter, doc_view(r.1)),
        ),
    decreases rows.len(),
{
    reveal(Seq::filter);
    if rows.len() > 0 {
        let init = rows.drop_last();
        let n = rows.len() - 1;
        filters_keep_what_they_are_true_of(f, filter, init);
        passing_is_being_true(f, filter, doc_view(rows.last().1));
        assert(rows[n] == rows.last());
        if filtered(f, filter, init) is Err {
            let i = choose|i: int|
                0 <= i < n && !can_decide(f, filter, doc_view((#[trigger] init[i]).1));
            assert(!can_decide(f, filter, doc_view(rows[i].1)));
        } else {
            assert forall|i: int| 0 <= i < n implies can_decide(
                f,
                filter,
                doc_view((#[trigger] rows[i]).1),
            ) by {
                assert(can_decide(f, filter, doc_view(init[i].1)));
            }
        }
    }
}

/// A row has a key where it has a value other than `NULL` in every key column,
/// and the key is the encoding of those values in the order of the columns.
pub proof fn keys_are_the_key_columns<K: Fn(&Vec<&Value>) -> Vec<u8>>(
    k: K,
    pk: Seq<Seq<char>>,
    m: Fields,
)
    ensures
        row_key(k, pk, m) is Ok <==> forall|i: int|
            0 <= i < pk.len() ==> m.dom().contains(#[trigger] pk[i]) && !(m[pk[i]] is Null),
        row_key(k, pk, m) matches Ok(key) ==> key == encoding(
            k,
            Seq::new(pk.len(), |i: int| m[pk[i]]),
        ),
        row_key(k, pk, m) matches Err(e) ==> e is Constraint,
{
    lemma_key_values(pk, m);
}

proof fn lemma_key_values(pk: Seq<Seq<char>>, m: Fields)
    ensures
        key_values(pk, m) is Ok <==> forall|i: int|
            0 <= i < pk.len() ==> m.dom().contains(#[trigger] pk[i]) && !(m[pk[i]] is Null),
        key_values(pk, m) matches Ok(vs) ==> vs == Seq::new(pk.len(), |i: int| m[pk[i]]),
        key_values(pk, m) matches Err(e) ==> e is Constraint,
    decreases pk.len(),
{
    if pk.len() > 0 {
        let init = pk.drop_last();
        let n = pk.len() - 1;
        lemma_key_values(init, m);
        assert(pk[n] == pk.last());
        if key_values(init, m) is Err {
            let i = choose|i: int|
                0 <= i < n && !(m.dom().contains(#[trigger] init[i]) && !(m[init[i]] is Null));
            assert(!(m.dom().contains(pk[i]) && !(m[pk[i]] is Null)));
        } else {
            assert forall|i: int| 0 <= i < n implies m.dom().contains(#[trigger] pk[i]) && !(
            m[pk[i]] is Null) by {
                assert(m.dom().contains(init[i]) && !(m[init[i]] is Null));
            }
        }
        if key_values(pk, m) is Ok {
            assert(key_values(pk, m)->Ok_0 =~= Seq::new(pk.len(), |i: int| m[pk[i]]));
        }
    } else {
        assert(Seq::new(pk.len(), |i: int| m[pk[i]]) =~= Seq::<ValueView>::empty());
    }
}

/// Whether a document holds an inserted row: a field for each column with a
/// value, the value evaluated on no row; of columns of one name the last.
pub open spec fn holds_inserted<F: Fn(&Expr, &Document) -> Result<Value, EngineError>>(
    f: F,
    columns: Seq<String>,
    row: Seq<Expr>,
    n: nat,
    m: Fields,
) -> bool {
    &&& forall|c: Seq<char>| #[trigger]
        m.dom().contains(c) <==> exists|i: int| 0 <= i < n && (#[trigger] columns[i])@ == c
    &&& forall|i: int|
        0 <= i < n && (forall|later: int|
            i < later < n ==> (#[trigger] columns[later])@ != columns[i]@) ==> m[(
        #[trigger] columns[i])@] == value_view(evaluated(f, row[i], Map::empty())->Ok_0)
}

/// An inserted row holds the value of each of its columns.
pub proof fn inserted_rows_hold_their_values<
    F: Fn(&Expr, &Document) -> Result<Value, EngineError>,
>(f: F, columns: Seq<String>, row: Seq<Expr>, n: nat)
    requires
        n <= columns.len(),
        n <= row.len(),
    ensures
        inserted(f, columns, row, n) is Ok <==> forall|i: int|
            0 <= i < n ==> evaluated(f, #[trigger] row[i], Map::empty()) is Ok,
        inserted(f, columns, row, n) matches Ok(m) ==> holds_inserted(f, columns, row, n, m),
    decreases n,
{
    if n > 0 {
        let p = (n - 1) as nat;
        inserted_rows_hold_their_values(f, columns, row, p);
        if inserted(f, columns, row, n) is Ok {
            let before = inserted(f, columns, row, p)->Ok_0;
            let m = inserted(f, columns, row, n)->Ok_0;
            assert forall|c: Seq<char>| #[trigger] m.dom().contains(c) <==> exists|i: int|
                0 <= i < n && (#[trigger] columns[i])@ == c by {
                if m.dom().contains(c) && c != columns[p as int]@ {
                    assert(before.dom().contains(c));
                    let i = choose|i: int| 0 <= i < p && (#[trigger] columns[i])@ == c;
                    assert(columns[i]@ == c);
                }
                if exists|i: int| 0 <= i < n && (#[trigger] columns[i])@ == c {
                    let i = choose|i: int| 0 <= i < n && (#[trigger] columns[i])@ == c;
                    if i < p {
                        assert(before.dom().contains(c));
                    }
                }
            }
            assert forall|i: int|
                0 <= i < n && (forall|later: int|
                    i < later < n ==> (#[trigger] columns[later])@ != columns[i]@) implies m[(
            #[trigger] columns[i])@] == value_view(evaluated(f, row[i], Map::empty())->Ok_0) by {
                if i < p {
                    assert(columns[p as int]@ != columns[i]@);
                }
            }
        }
    }
}

/// An `INSERT` takes its rows one by one: each comes to a document of its
/// values at the key of that document. It is refused where one of them is, with
/// the refusal of the first.
pub proof fn inserts_take_every_row<
    F: Fn(&Expr, &Document) -> Result<Value, EngineError>,
    K: Fn(&Vec<&Value>) -> Vec<u8>,
>(f: F, k: K, pk: Seq<Seq<char>>, columns: Seq<String>, rows: Seq<Vec<Expr>>) -> (bad: int)
    ensures
        match inserted_rows(f, k, pk, columns, rows) {
            Ok(out) => {
                &&& out.len() == rows.len()
                &&& forall|i: int|
                    0 <= i < rows.len() ==> {
                        &&& holds_inserted(
                            f,
                            columns,
                            rows[i]@,
                            inserted_columns(columns, rows[i]@),
                            (#[trigger] out[i]).1,
                        )
                        &&& row_key(k, pk, out[i].1) == Ok::<Seq<u8>, ErrorView>(out[i].0)
                    }
            },
            Err(e) => {
                &&& 0 <= bad < rows.len()
                &&& inserted_row(f, k, pk, columns, rows[bad]@) == Err::<
                    (Seq<u8>, Fields),
                    ErrorView,
                >(e)
                &&& forall|i: int|
                    0 <= i < bad ==> inserted_row(f, k, pk, columns, (#[trigger] rows[i])@) is Ok
            },
        },
    decreases rows.len(),
{
    if rows.len() == 0 {
        0
    } else {
        let init = rows.drop_last();
        let n = rows.len() - 1;
        let before = inserts_take_every_row(f, k, pk, columns, init);
        let row = rows.last()@;
        let w = inserted_columns(columns, row);
        inserted_rows_hold_their_values(f, columns, row, w);
        match inserted_rows(f, k, pk, columns, init) {
            Err(e) => {
                assert forall|i: int| 0 <= i < before implies inserted_row(
                    f,
                    k,
                    pk,
                    columns,
                    (#[trigger] rows[i])@,
                ) is Ok by {
                    assert(inserted_row(f, k, pk, columns, init[i]@) is Ok);
                }
                before
            },
            Ok(done) => {
                match inserted_rows(f, k, pk, columns, rows) {
                    Ok(out) => {
                        assert forall|i: int| 0 <= i < rows.len() implies holds_inserted(
                            f,
                            columns,
                            rows[i]@,
                            inserted_columns(columns, rows[i]@),
                            (#[trigger] out[i]).1,
                        ) && row_key(k, pk, out[i].1) == Ok::<Seq<u8>, ErrorView>(out[i].0) by {
                            if i < n {
                                assert(out[i] == done[i]);
                                assert(init[i] == rows[i]);
                            }
                        }
                        n
                    },
                    Err(e) => {
                        lemma_taken(f, k, pk, columns, init);
                        assert forall|i: int| 0 <= i < n implies inserted_row(
                            f,
                            k,
                            pk,
                            columns,
                            (#[trigger] rows[i])@,
                        ) is Ok by {
                            assert(inserted_row(f, k, pk, columns, init[i]@) is Ok);
                        }
                        n
                    },
                }
            },
        }
    }
}

proof fn lemma_taken<
    F: Fn(&Expr, &Document) -> Result<Value, EngineError>,
    K: Fn(&Vec<&Value>) -> Vec<u8>,
>(f: F, k: K, pk: Seq<Seq<char>>, columns: Seq<String>, rows: Seq<Vec<Expr>>)
    requires
        inserted_rows(f, k, pk, columns, rows) is Ok,
    ensures
        forall|i: int|
            0 <= i < rows.len() ==> inserted_row(f, k, pk, columns, (#[trigger] rows[i])@) is Ok,
    decreases rows.len(),
{
    if rows.len() > 0 {
        let init = rows.drop_last();
        lemma_taken(f, k, pk, columns, init);
        assert forall|i: int| 0 <= i < rows.len() implies inserted_row(
            f,
            k,
            pk,
            columns,
            (#[trigger] rows[i])@,
        ) is Ok by {
            if i < init.len() {
                assert(inserted_row(f, k, pk, columns, init[i]@) is Ok);
            }
        }
    }
}

/// Whether one path goes through another or they are the same.
pub open spec fn paths_meet(a: Seq<Seq<char>>, b: Seq<Seq<char>>) -> bool {
    forall|i: int| 0 <= i < a.len() && i < b.len() ==> #[trigger] a[i] == b[i]
}

/// Setting a path leaves what is at every other path that neither goes through
/// it nor lies on the way to it.
pub proof fn set_path_keeps_other_paths(
    m: Fields,
    parts: Seq<Seq<char>>,
    v: ValueView,
    other: Seq<Seq<char>>,
)
    requires
        parts.len() > 0,
        other.len() > 0,
        !paths_meet(parts, other),
    ensures
        at_path(with_path(m, parts, v), other) == at_path(m, other),
    decreases parts.len(),
{
    if parts[0] == other[0] {
        let i = choose|i: int| 0 <= i < parts.len() && i < other.len() && parts[i] != other[i];
        assert(i > 0);
        let p = parts.skip(1);
        let o = other.skip(1);
        assert(p[i - 1] == parts[i] && o[i - 1] == other[i]);
        assert(!paths_meet(p, o));
        let child = if m.dom().contains(parts[0]) {
            match m[parts[0]] {
                ValueView::Document(c) => c,
                _ => Map::empty(),
            }
        } else {
            Map::empty()
        };
        set_path_keeps_other_paths(child, p, v, o);
        assert(at_path(Map::empty(), o) is None);
    }
}

/// The path that an assignment sets.
pub open spec fn path_of(a: (String, Expr)) -> Seq<Seq<char>> {
    pieces(a.0@, '.')
}

proof fn lemma_pieces_some(s: Seq<char>, c: char)
    ensures
        pieces(s, c).len() > 0,
    decreases s.len(),
{
}

/// Assignments put at each path the value that its expression has on the row as
/// it was, unless a later one goes through that path, and leave everything that
/// none goes through.
pub proof fn assignments_change_what_they_name<
    F: Fn(&Expr, &Document) -> Result<Value, EngineError>,
>(f: F, row: Fields, assignments: Seq<(String, Expr)>, n: nat, i: int, other: Seq<Seq<char>>)
    requires
        n <= assignments.len(),
        other.len() > 0,
    ensures
        assigned(f, row, assignments, n) is Ok <==> forall|j: int|
            0 <= j < n ==> evaluated(f, (#[trigger] assignments[j]).1, row) is Ok,
        assigned(f, row, assignments, n) matches Ok(m) ==> {
            &&& 0 <= i < n && (forall|later: int|
                i < later < n ==> !paths_meet(
                    path_of(#[trigger] assignments[later]),
                    path_of(assignments[i]),
                )) ==> at_path(m, path_of(assignments[i])) == Some(
                value_view(evaluated(f, assignments[i].1, row)->Ok_0),
            )
            &&& (forall|j: int| 0 <= j < n ==> !paths_meet(path_of(#[trigger] assignments[j]), other))
                ==> at_path(m, other) == at_path(row, other)
        },
    decreases n,
{
    if n > 0 {
        let p = (n - 1) as nat;
        assignments_change_what_they_name(f, row, assignments, p, i, other);
        if assigned(f, row, assignments, n) is Ok {
            let before = assigned(f, row, assignments, p)->Ok_0;
            let last = assignments[p as int];
            let v = value_view(evaluated(f, last.1, row)->Ok_0);
            lemma_pieces_some(last.0@, '.');
            set_path_is_read_back(before, path_of(last), v);
            if 0 <= i < p && (forall|later: int|
                i < later < n ==> !paths_meet(
                    path_of(#[trigger] assignments[later]),
                    path_of(assignments[i]),
                )) {
                lemma_pieces_some(assignments[i].0@, '.');
                set_path_keeps_other_paths(before, path_of(last), v, path_of(assignments[i]));
            }
            if forall|j: int| 0 <= j < n ==> !paths_meet(path_of(#[trigger] assignments[j]), other) {
                assert(!paths_meet(path_of(assignments[p as int]), other));
                set_path_keeps_other_paths(before, path_of(last), v, other);
            }
        }
    }
}

/// An updated row is the row with its assignments made, at the key of what came
/// of it; the old row goes where the key is another.
pub proof fn updates_move_rows_to_their_key<
    F: Fn(&Expr, &Document) -> Result<Value, EngineError>,
    K: Fn(&Vec<&Value>) -> Vec<u8>,
>(
    f: F,
    k: K,
    pk: Seq<Seq<char>>,
    old_key: Seq<u8>,
    row: Fields,
    assignments: Seq<(String, Expr)>,
)
    ensures
        updated_row(f, k, pk, old_key, row, assignments) matches Ok((key, m, gone)) ==> {
            &&& assigned(f, row, assignments, assignments.len()) == Ok::<Fields, EngineError>(m)
            &&& key == encoding(k, Seq::new(pk.len(), |i: int| m[pk[i]]))
            &&& forall|i: int|
                0 <= i < pk.len() ==> m.dom().contains(#[trigger] pk[i]) && !(m[pk[i]] is Null)
            &&& gone <==> key != old_key
        },
{
    if let Ok((key, m, gone)) = updated_row(f, k, pk, old_key, row, assignments) {
        keys_are_the_key_columns(k, pk, m);
    }
}

/// The rows of a table after an `UPDATE` that changes no key: every row it
/// matched holds what came of its assignments, and the others are as they were.
pub proof fn updated_rows_are_stored<
    F: Fn(&Expr, &Document) -> Result<Value, EngineError>,
    K: Fn(&Vec<&Value>) -> Vec<u8>,
>(
    f: F,
    k: K,
    pk: Seq<Seq<char>>,
    rows: Seq<(Seq<u8>, Fields)>,
    assignments: Seq<(String, Expr)>,
    table: Map<Seq<u8>, Fields>,
    key: Seq<u8>,
)
    requires
        update_writes(f, k, pk, rows, assignments).1 is None,
        forall|i: int|
            0 <= i < rows.len() ==> (updated_row(
                f,
                k,
                pk,
                (#[trigger] rows[i]).0,
                rows[i].1,
                assignments,
            ) matches Ok((to, _, _)) && to == rows[i].0),
        forall|i: int, j: int|
            0 <= i < j < rows.len() ==> (#[trigger] rows[i]).0 != (#[trigger] rows[j]).0,
    ensures
        ({
            let after = all_written(table, update_writes(f, k, pk, rows, assignments).0);
            &&& forall|i: int|
                0 <= i < rows.len() && (#[trigger] rows[i]).0 == key ==> after.dom().contains(key)
                    && assigned(f, rows[i].1, assignments, assignments.len()) == Ok::<
                    Fields,
                    EngineError,
                >(after[key])
            &&& (forall|i: int| 0 <= i < rows.len() ==> (#[trigger] rows[i]).0 != key)
                ==> after.dom().contains(key) == table.dom().contains(key) && (table.dom().contains(
                key,
            ) ==> after[key] == table[key])
        }),
    decreases rows.len(),
{
    if rows.len() > 0 {
        let init = rows.drop_last();
        let n = rows.len() - 1;
        let (ws, failed) = update_writes(f, k, pk, init, assignments);
        assert forall|i: int| 0 <= i < init.len() implies (updated_row(
            f,
            k,
            pk,
            (#[trigger] init[i]).0,
            init[i].1,
            assignments,
        ) matches Ok((to, _, _)) && to == init[i].0) by {
            assert(rows[i] == init[i]);
        }
        assert forall|i: int, j: int| 0 <= i < j < init.len() implies (#[trigger] init[i]).0 != (
        #[trigger] init[j]).0 by {
            assert(rows[i].0 != rows[j].0);
        }
        updated_rows_are_stored(f, k, pk, init, assignments, table, key);
        assert(rows[n] == rows.last());
        let (to, doc, gone) = updated_row(f, k, pk, rows[n].0, rows[n].1, assignments)->Ok_0;
        let put = WriteView::Put(to, doc);
        let all = update_writes(f, k, pk, rows, assignments).0;
        assert(row_writes(rows[n].0, rows[n].1, to, doc) =~= seq![put]);
        assert(all =~= ws.push(put));
        assert(all.drop_last() =~= ws);
        let before = all_written(table, ws);
        let after = all_written(table, all);
        assert(after == before.insert(to, doc));
        assert forall|i: int| 0 <= i < rows.len() && (#[trigger] rows[i]).0
            == key implies after.dom().contains(key) && assigned(
            f,
            rows[i].1,
            assignments,
            assignments.len(),
        ) == Ok::<Fields, EngineError>(after[key]) by {
            if i < n {
                assert(init[i] == rows[i]);
                assert(rows[i].0 != rows[n].0);
            }
        }
        if forall|i: int| 0 <= i < rows.len() ==> (#[trigger] rows[i]).0 != key {
            assert(rows[n].0 != key);
            assert forall|i: int| 0 <= i < init.len() implies (#[trigger] init[i]).0 != key by {
                assert(rows[i].0 != key);
            }
        }
    }
}

/// A query without a table has one row, of the values of its expressions on no
/// row, under their names. It is refused where it shows `*` or an expression
/// has no value.
pub proof fn a_constant_row_holds_its_values<
    F: Fn(&Expr, &Document) -> Result<Value, EngineError>,
>(f: F, items: Seq<SelectItem>)
    ensures
        constant_row(f, items) is Ok <==> forall|i: int|
            0 <= i < items.len() ==> ((#[trigger] items[i]) matches SelectItem::Expr { expr, .. }
                && evaluated(f, expr, Map::empty()) is Ok),
        constant_row(f, items) matches Ok((columns, row)) ==> {
            &&& columns.len() == items.len()
            &&& row.len() == items.len()
            &&& forall|i: int|
                0 <= i < items.len() ==> ((#[trigger] items[i]) matches SelectItem::Expr {
                    expr,
                    alias,
                } && row[i] == value_view(evaluated(f, expr, Map::empty())->Ok_0) && columns[i] == (
                match alias {
                    Some(a) => a@,
                    None => name_of(expr),
                }))
        },
    decreases items.len(),
{
    if items.len() > 0 {
        let init = items.drop_last();
        let n = items.len() - 1;
        a_constant_row_holds_its_values(f, init);
        assert(items[n] == items.last());
        assert(forall|i: int| 0 <= i < n ==> #[trigger] items[i] == init[i]);
        if constant_row(f, init) is Err {
            let i = choose|i: int|
                0 <= i < n && !((#[trigger] init[i]) matches SelectItem::Expr { expr, .. }
                    && evaluated(f, expr, Map::empty()) is Ok);
            assert(!(items[i] matches SelectItem::Expr { expr, .. } && evaluated(
                f,
                expr,
                Map::empty(),
            ) is Ok));
        }
    }
}

/// Pieces put together again with what parts them.
pub open spec fn rejoined(ps: Seq<Seq<char>>, c: char) -> Seq<char>
    decreases ps.len(),
{
    if ps.len() == 0 {
        Seq::empty()
    } else if ps.len() == 1 {
        ps[0]
    } else {
        ps[0] + seq![c] + rejoined(ps.skip(1), c)
    }
}

/// Taking a text apart at a character loses nothing: its pieces, none of which
/// holds the character, come together to the text.
pub proof fn pieces_come_together(s: Seq<char>, c: char)
    ensures
        rejoined(pieces(s, c), c) == s,
        forall|i: int| 0 <= i < pieces(s, c).len() ==> !(#[trigger] pieces(s, c)[i]).contains(c),
    decreases s.len(),
{
    crate::text::lemma_first_of(s, c);
    let k = first_of(s, c);
    let ps = pieces(s, c);
    if k >= s.len() {
        assert(!s.contains(c));
    } else {
        let rest = s.skip(k + 1);
        pieces_come_together(rest, c);
        lemma_pieces_some(rest, c);
        assert(ps.skip(1) =~= pieces(rest, c));
        assert(s =~= s.take(k) + seq![c] + rest);
        assert(!s.take(k).contains(c)) by {
            if s.take(k).contains(c) {
                let i = choose|i: int| 0 <= i < k && s.take(k)[i] == c;
                assert(s[i] == c);
            }
        }
        assert forall|i: int| 0 <= i < ps.len() implies !(#[trigger] ps[i]).contains(c) by {
            if i > 0 {
                assert(ps[i] == pieces(rest, c)[i - 1]);
            }
        }
    }
}

} // verus!
