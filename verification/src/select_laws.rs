//! What the rows of a query are: those of its documents, in the order of the
//! sort keys, without duplicates where that is asked for, and cut to the page.

use vstd::prelude::*;

use crate::ast::Expr;
use crate::ast::OrderKey;
use crate::ast::Select;
use crate::ast::SelectItem;
use crate::ddl_database::names_ascend;
use crate::describe::in_order;
use crate::error::EngineError;
use crate::execute::encoding;
use crate::execute::evaluated;
use crate::model::value_view;
use crate::model::Fields;
use crate::model::ValueView;
use crate::order::lemma_slot_for;
use crate::order::page;
use crate::order::slot_for;
use crate::order::Rank;
use crate::projection::wildcard;
use crate::results::deduped;
use crate::results::item_values;
use crate::results::order_directions;
use crate::results::order_exprs;
use crate::results::projected_row;
use crate::results::projected_rows;
use crate::results::repeats;
use crate::results::rows_wanted;
use crate::results::selected;
use crate::results::shown_docs;
use crate::results::shown_fields;
use crate::results::sorted_docs;
use crate::select_plan::gather_limit;
use crate::select_plan::output_names;
use crate::sort_laws::are_places;
use crate::sort_laws::doc_precedes;
use crate::sort_laws::documents_are_sorted;
use crate::sort_laws::has_sort_key;
use crate::sort_laws::orders_values;
use crate::sort_laws::stand_sorted;
use crate::text::lemma_seq_lt_total;
use crate::text::lemma_seq_lt_trans;
use crate::text::seq_lt;
use crate::value::Document;
use crate::value::Value;

verus! {

/// Where a page of `n` rows begins: behind the rows skipped.
pub open spec fn page_from(n: int, offset: Option<u64>) -> int {
    match offset {
        Some(o) => if o < n {
            o as int
        } else {
            n
        },
        None => 0,
    }
}

/// Where a page of `n` rows ends.
pub open spec fn page_to(n: int, offset: Option<u64>, limit: Option<u64>) -> int {
    match limit {
        Some(l) => if page_from(n, offset) + l < n {
            page_from(n, offset) + l
        } else {
            n
        },
        None => n,
    }
}

/// A page is the run of rows from its offset on, as long as its limit says or
/// to the end.
pub proof fn page_is_a_run<T>(rows: Seq<T>, offset: Option<u64>, limit: Option<u64>)
    ensures
        0 <= page_from(rows.len() as int, offset) <= page_to(rows.len() as int, offset, limit)
            <= rows.len(),
        page(rows, offset, limit) == rows.subrange(
            page_from(rows.len() as int, offset),
            page_to(rows.len() as int, offset, limit),
        ),
{
    assert(page(rows, offset, limit) =~= rows.subrange(
        page_from(rows.len() as int, offset),
        page_to(rows.len() as int, offset, limit),
    ));
}

/// Whether numbers go up, all below `n`.
pub open spec fn go_up(qs: Seq<int>, n: int) -> bool {
    &&& forall|i: int| 0 <= i < qs.len() ==> 0 <= #[trigger] qs[i] < n
    &&& forall|i: int, j: int| 0 <= i < j < qs.len() ==> #[trigger] qs[i] < #[trigger] qs[j]
}

/// Whether no row in front of the one at `j` encodes as it does.
pub open spec fn is_first_of_its_kind<K: Fn(&Vec<&Value>) -> Vec<u8>>(
    k: K,
    rows: Seq<Seq<ValueView>>,
    j: int,
) -> bool {
    forall|i: int| 0 <= i < j ==> encoding(k, #[trigger] rows[i]) != encoding(k, rows[j])
}

/// Whether `qs` are the places of the rows that stay where duplicates go: of
/// each kind the first, in the order they had.
pub open spec fn are_the_firsts<K: Fn(&Vec<&Value>) -> Vec<u8>>(
    k: K,
    rows: Seq<Seq<ValueView>>,
    qs: Seq<int>,
) -> bool {
    &&& go_up(qs, rows.len() as int)
    &&& forall|j: int|
        0 <= j < rows.len() ==> (qs.contains(j) <==> #[trigger] is_first_of_its_kind(k, rows, j))
}

/// Deduplication keeps of each kind of row the first, in order, and nothing
/// else.
pub proof fn dedup_keeps_the_first_of_each<K: Fn(&Vec<&Value>) -> Vec<u8>>(
    k: K,
    rows: Seq<Seq<ValueView>>,
) -> (qs: Seq<int>)
    ensures
        are_the_firsts(k, rows, qs),
        deduped(k, rows).len() == qs.len(),
        forall|i: int| 0 <= i < qs.len() ==> #[trigger] deduped(k, rows)[i] == rows[qs[i]],
    decreases rows.len(),
{
    if rows.len() == 0 {
        Seq::empty()
    } else {
        let init = rows.drop_last();
        let n = rows.len() - 1;
        let before = dedup_keeps_the_first_of_each(k, init);
        assert(is_first_of_its_kind(k, rows, n) <==> !repeats(k, rows, n));
        assert forall|j: int| 0 <= j < n implies (before.contains(j) <==> #[trigger] is_first_of_its_kind(
            k,
            rows,
            j,
        )) by {
            assert(is_first_of_its_kind(k, init, j) <==> is_first_of_its_kind(k, rows, j)) by {
                assert forall|i: int| 0 <= i < j implies init[i] == #[trigger] rows[i] by {}
                if is_first_of_its_kind(k, rows, j) {
                    assert forall|i: int| 0 <= i < j implies encoding(k, #[trigger] init[i])
                        != encoding(k, init[j]) by {
                        assert(encoding(k, rows[i]) != encoding(k, rows[j]));
                    }
                }
                if is_first_of_its_kind(k, init, j) {
                    assert forall|i: int| 0 <= i < j implies encoding(k, #[trigger] rows[i])
                        != encoding(k, rows[j]) by {
                        assert(encoding(k, init[i]) != encoding(k, init[j]));
                    }
                }
            }
        }
        assert(!before.contains(n)) by {
            if before.contains(n) {
                let i = choose|i: int| 0 <= i < before.len() && before[i] == n;
                assert(before[i] < n);
            }
        }
        if repeats(k, rows, n) {
            before
        } else {
            let qs = before.push(n);
            assert forall|j: int| 0 <= j < rows.len() implies (qs.contains(j)
                <==> #[trigger] is_first_of_its_kind(k, rows, j)) by {
                if j < n {
                    if before.contains(j) {
                        let i = choose|i: int| 0 <= i < before.len() && before[i] == j;
                        assert(qs[i] == j);
                    }
                    if qs.contains(j) {
                        let i = choose|i: int| 0 <= i < qs.len() && qs[i] == j;
                        assert(before[i] == j);
                    }
                } else {
                    assert(qs[before.len() as int] == n);
                }
            }
            assert forall|i: int| 0 <= i < qs.len() implies #[trigger] deduped(k, rows)[i]
                == rows[qs[i]] by {
                if i < before.len() {
                    assert(deduped(k, init)[i] == init[before[i]]);
                }
            }
            qs
        }
    }
}

/// How many cells the first `n` items of a projection take, `w` for each
/// wildcard.
pub open spec fn cells_before(items: Seq<SelectItem>, w: nat, n: int) -> nat
    decreases n,
{
    if n <= 0 {
        0
    } else {
        cells_before(items, w, n - 1) + if items[n - 1] is Wildcard {
            w
        } else {
            1
        }
    }
}

/// Whether a row shows a document: for an expression its value, for a wildcard
/// the document's fields by their names, `NULL` where it has none.
pub open spec fn shows<F: Fn(&Expr, &Document) -> Result<Value, EngineError>>(
    f: F,
    items: Seq<SelectItem>,
    names: Seq<Seq<char>>,
    m: Fields,
    row: Seq<ValueView>,
) -> bool {
    &&& row.len() == cells_before(items, names.len(), items.len() as int)
    &&& forall|i: int|
        0 <= i < items.len() ==> match #[trigger] items[i] {
            SelectItem::Expr { expr, .. } => evaluated(f, expr, m) is Ok && row[cells_before(
                items,
                names.len(),
                i,
            ) as int] == value_view(evaluated(f, expr, m)->Ok_0),
            SelectItem::Wildcard => shows_fields(
                names,
                m,
                row,
                cells_before(items, names.len(), i) as int,
            ),
        }
}

/// Whether a row shows a document's fields from a cell on.
pub open spec fn shows_fields(
    names: Seq<Seq<char>>,
    m: Fields,
    row: Seq<ValueView>,
    from: int,
) -> bool {
    forall|j: int|
        0 <= j < names.len() ==> row[#[trigger] (from + j)] == if m.dom().contains(names[j]) {
            m[names[j]]
        } else {
            ValueView::Null
        }
}

/// Whether columns are named as the projection says.
pub open spec fn names_columns(
    items: Seq<SelectItem>,
    names: Seq<Seq<char>>,
    columns: Seq<Seq<char>>,
) -> bool {
    &&& columns.len() == cells_before(items, names.len(), items.len() as int)
    &&& forall|i: int|
        0 <= i < items.len() ==> match #[trigger] items[i] {
            SelectItem::Expr { expr, alias } => columns[cells_before(items, names.len(), i) as int]
                == (match alias {
                Some(a) => a@,
                None => crate::select_plan::name_of(expr),
            }),
            SelectItem::Wildcard => forall|j: int|
                0 <= j < names.len() ==> columns[#[trigger] (cells_before(items, names.len(), i)
                    + j)] == names[j],
        }
}

proof fn lemma_cells_grow(items: Seq<SelectItem>, w: nat, i: int, n: int)
    requires
        0 <= i < n <= items.len(),
    ensures
        cells_before(items, w, i) + (if items[i] is Wildcard {
            w
        } else {
            1
        }) <= cells_before(items, w, n),
    decreases n,
{
    if i < n - 1 {
        lemma_cells_grow(items, w, i, n - 1);
    }
}

/// A projected row shows its document, item by item; it fails where an item
/// does.
proof fn lemma_projected_row_shows<F: Fn(&Expr, &Document) -> Result<Value, EngineError>>(
    f: F,
    items: Seq<SelectItem>,
    names: Seq<Seq<char>>,
    m: Fields,
    n: nat,
)
    requires
        n <= items.len(),
    ensures
        projected_row(f, items, names, m, n) matches Ok(row) ==> row.len() == cells_before(
            items,
            names.len(),
            n as int,
        ) && forall|i: int|
            0 <= i < n ==> match #[trigger] items[i] {
                SelectItem::Expr { expr, .. } => evaluated(f, expr, m) is Ok && row[cells_before(
                    items,
                    names.len(),
                    i,
                ) as int] == value_view(evaluated(f, expr, m)->Ok_0),
                SelectItem::Wildcard => shows_fields(
                    names,
                    m,
                    row,
                    cells_before(items, names.len(), i) as int,
                ),
            },
        projected_row(f, items, names, m, n) matches Err(e) ==> exists|i: int|
            0 <= i < n && ((#[trigger] items[i]) matches SelectItem::Expr { expr, .. } && evaluated(
                f,
                expr,
                m,
            ) == Err::<Value, EngineError>(e)),
    decreases n,
{
    if n > 0 {
        let p = (n - 1) as nat;
        lemma_projected_row_shows(f, items, names, m, p);
        match projected_row(f, items, names, m, p) {
            Err(e) => {},
            Ok(before) => {
                match projected_row(f, items, names, m, n) {
                    Err(e) => {
                        assert(items[p as int] matches SelectItem::Expr { expr, .. } && evaluated(
                            f,
                            expr,
                            m,
                        ) == Err::<Value, EngineError>(e));
                    },
                    Ok(row) => {
                        let vs = item_values(f, items[p as int], names, m)->Ok_0;
                        assert(row == before + vs);
                        assert forall|i: int| 0 <= i < n implies match #[trigger] items[i] {
                            SelectItem::Expr { expr, .. } => evaluated(f, expr, m) is Ok
                                && row[cells_before(items, names.len(), i) as int] == value_view(
                                evaluated(f, expr, m)->Ok_0,
                            ),
                            SelectItem::Wildcard => shows_fields(
                                names,
                                m,
                                row,
                                cells_before(items, names.len(), i) as int,
                            ),
                        } by {
                            let from = cells_before(items, names.len(), i) as int;
                            if i < p {
                                lemma_cells_grow(items, names.len(), i, p as int);
                                match items[i] {
                                    SelectItem::Expr { expr, .. } => {
                                        assert(row[from] == before[from]);
                                    },
                                    SelectItem::Wildcard => {
                                        assert(shows_fields(names, m, before, from));
                                        assert forall|j: int| 0 <= j < names.len() implies row[
                                        #[trigger] (from + j)] == if m.dom().contains(names[j]) {
                                            m[names[j]]
                                        } else {
                                            ValueView::Null
                                        } by {
                                            assert(row[from + j] == before[from + j]);
                                        }
                                    },
                                }
                            } else {
                                assert(from == before.len());
                                match items[i] {
                                    SelectItem::Expr { expr, .. } => {
                                        assert(row[from] == vs[0]);
                                    },
                                    SelectItem::Wildcard => {
                                        assert forall|j: int| 0 <= j < names.len() implies row[
                                        #[trigger] (from + j)] == if m.dom().contains(names[j]) {
                                            m[names[j]]
                                        } else {
                                            ValueView::Null
                                        } by {
                                            assert(row[from + j] == vs[j]);
                                        }
                                    },
                                }
                            }
                        }
                    },
                }
            },
        }
    }
}

/// Whether every item of a projection has a value on a document.
pub open spec fn items_evaluate<F: Fn(&Expr, &Document) -> Result<Value, EngineError>>(
    f: F,
    items: Seq<SelectItem>,
    m: Fields,
) -> bool {
    forall|i: int|
        0 <= i < items.len() ==> ((#[trigger] items[i]) matches SelectItem::Expr { expr, .. }
            ==> evaluated(f, expr, m) is Ok)
}

proof fn lemma_row_shows<F: Fn(&Expr, &Document) -> Result<Value, EngineError>>(
    f: F,
    items: Seq<SelectItem>,
    names: Seq<Seq<char>>,
    m: Fields,
)
    ensures
        projected_row(f, items, names, m, items.len()) is Ok <==> items_evaluate(f, items, m),
        projected_row(f, items, names, m, items.len()) matches Ok(row) ==> shows(
            f,
            items,
            names,
            m,
            row,
        ),
{
    lemma_projected_row_shows(f, items, names, m, items.len());
    let r = projected_row(f, items, names, m, items.len());
    if r is Err {
        let i = choose|i: int|
            0 <= i < items.len() && ((#[trigger] items[i]) matches SelectItem::Expr { expr, .. }
                && evaluated(f, expr, m) == Err::<Value, EngineError>(r->Err_0));
        assert(!items_evaluate(f, items, m));
    }
}

/// The rows of documents show them one by one, wherever every item has a value
/// on each of them.
#[verifier::rlimit(80)]
#[verifier::spinoff_prover]
pub proof fn rows_show_their_documents<F: Fn(&Expr, &Document) -> Result<Value, EngineError>>(
    f: F,
    items: Seq<SelectItem>,
    names: Seq<Seq<char>>,
    ms: Seq<Fields>,
)
    ensures
        projected_rows(f, items, names, ms) is Ok <==> forall|i: int|
            0 <= i < ms.len() ==> items_evaluate(f, items, #[trigger] ms[i]),
        projected_rows(f, items, names, ms) matches Ok(rows) ==> rows.len() == ms.len() && forall|
            i: int,
        |
            0 <= i < ms.len() ==> shows(f, items, names, ms[i], #[trigger] rows[i]),
    decreases ms.len(),
{
    if ms.len() > 0 {
        let init = ms.drop_last();
        let n = ms.len() - 1;
        rows_show_their_documents(f, items, names, init);
        lemma_row_shows(f, items, names, ms[n]);
        if projected_rows(f, items, names, init) is Err {
            let i = choose|i: int| 0 <= i < n && !items_evaluate(f, items, #[trigger] init[i]);
            assert(!items_evaluate(f, items, ms[i]));
        } else {
            assert forall|i: int| 0 <= i < n implies items_evaluate(f, items, #[trigger] ms[i]) by {
                assert(items_evaluate(f, items, init[i]));
            }
        }
        if projected_rows(f, items, names, ms) is Ok {
            let rows = projected_rows(f, items, names, ms)->Ok_0;
            let before = projected_rows(f, items, names, init)->Ok_0;
            assert forall|i: int| 0 <= i < ms.len() implies shows(
                f,
                items,
                names,
                ms[i],
                #[trigger] rows[i],
            ) by {
                if i < n {
                    assert(rows[i] == before[i]);
                    assert(shows(f, items, names, init[i], before[i]));
                }
            }
        }
    }
}

/// The columns of a query are named by its projection.
pub proof fn columns_are_named(items: Seq<SelectItem>, names: Seq<Seq<char>>)
    ensures
        names_columns(items, names, output_names(items, names)),
    decreases items.len(),
{
    if items.len() > 0 {
        let init = items.drop_last();
        let n = items.len() - 1;
        let w = names.len();
        columns_are_named(init, names);
        let before = output_names(init, names);
        let columns = output_names(items, names);
        lemma_cells_agree(items, w, n);
        assert forall|i: int| 0 <= i < items.len() implies match #[trigger] items[i] {
            SelectItem::Expr { expr, alias } => columns[cells_before(items, w, i) as int] == (
            match alias {
                Some(a) => a@,
                None => crate::select_plan::name_of(expr),
            }),
            SelectItem::Wildcard => forall|j: int|
                0 <= j < w ==> columns[#[trigger] (cells_before(items, w, i) + j)] == names[j],
        } by {
            if i < n {
                lemma_cells_agree(items, w, i);
                lemma_cells_grow(init, w, i, n);
                assert(init[i] == items[i]);
                let from = cells_before(init, w, i) as int;
                match items[i] {
                    SelectItem::Expr { expr, alias } => {
                        assert(columns[from] == before[from]);
                    },
                    SelectItem::Wildcard => {
                        assert forall|j: int| 0 <= j < w implies columns[#[trigger] (cells_before(
                            items,
                            w,
                            i,
                        ) + j)] == names[j] by {
                            assert(columns[from + j] == before[from + j]);
                            assert(before[cells_before(init, w, i) + j] == names[j]);
                        }
                    },
                }
            } else {
                assert(cells_before(items, w, i) == before.len());
            }
        }
    }
}

proof fn lemma_cells_agree(items: Seq<SelectItem>, w: nat, n: int)
    requires
        0 <= n < items.len(),
    ensures
        cells_before(items.drop_last(), w, n) == cells_before(items, w, n),
    decreases n,
{
    if n > 0 {
        lemma_cells_agree(items, w, n - 1);
    }
}

proof fn lemma_ordered_names(s: Set<Seq<char>>) -> (ns: Seq<Seq<char>>)
    requires
        s.finite(),
    ensures
        names_ascend(ns),
        forall|n: Seq<char>| #[trigger] ns.contains(n) <==> s.contains(n),
    decreases s.len(),
{
    if s.len() == 0 {
        assert(s =~= Set::<Seq<char>>::empty());
        Seq::empty()
    } else {
        let x = s.choose();
        let rest = s.remove(x);
        let t = lemma_ordered_names(rest);
        let lt = |a: Seq<char>, b: Seq<char>| seq_lt(a, b);
        lemma_slot_for(t, x, lt);
        let p = slot_for(t, x, lt);
        let r = t.insert(p, x);
        assert forall|i: int| 0 <= i < p implies seq_lt(#[trigger] t[i], x) by {
            assert(!lt(x, t[i]));
            lemma_seq_lt_total(t[i], x);
            assert(t.contains(t[i]));
        }
        assert forall|i: int| p <= i < t.len() implies seq_lt(x, #[trigger] t[i]) by {
            assert(lt(x, t[p]));
            if i > p {
                assert(seq_lt(t[p], t[i]));
                lemma_seq_lt_trans(x, t[p], t[i]);
            }
        }
        assert forall|i: int, j: int| 0 <= i < j < r.len() implies seq_lt(
            #[trigger] r[i],
            #[trigger] r[j],
        ) by {
            let i0 = if i < p {
                i
            } else {
                i - 1
            };
            let j0 = if j < p {
                j
            } else {
                j - 1
            };
            if i == p {
                assert(r[j] == t[j0]);
            } else if j == p {
                assert(r[i] == t[i0]);
            } else {
                assert(r[i] == t[i0] && r[j] == t[j0]);
                assert(seq_lt(t[i0], t[j0]));
            }
        }
        assert forall|n: Seq<char>| #[trigger] r.contains(n) <==> s.contains(n) by {
            if r.contains(n) {
                let i = choose|i: int| 0 <= i < r.len() && r[i] == n;
                if i < p {
                    assert(t[i] == n);
                    assert(t.contains(n));
                } else if i > p {
                    assert(t[i - 1] == n);
                    assert(t.contains(n));
                }
            }
            if s.contains(n) {
                if n == x {
                    assert(r[p] == n);
                } else {
                    assert(t.contains(n));
                    let i = choose|i: int| 0 <= i < t.len() && t[i] == n;
                    if i < p {
                        assert(r[i] == n);
                    } else {
                        assert(r[i + 1] == n);
                    }
                }
            }
        }
        r
    }
}

proof fn lemma_shown_fields_finite(ms: Seq<Fields>, hide: Set<Seq<char>>)
    requires
        forall|i: int| 0 <= i < ms.len() ==> (#[trigger] ms[i]).dom().finite(),
    ensures
        shown_fields(ms, hide).finite(),
    decreases ms.len(),
{
    if ms.len() == 0 {
        assert(shown_fields(ms, hide) =~= Set::<Seq<char>>::empty());
    } else {
        let init = ms.drop_last();
        let n = ms.len() - 1;
        assert forall|i: int| 0 <= i < init.len() implies (#[trigger] init[i]).dom().finite() by {
            assert(ms[i].dom().finite());
        }
        lemma_shown_fields_finite(init, hide);
        assert(ms[n].dom().finite());
        let both = shown_fields(init, hide).union(ms[n].dom());
        assert forall|x: Seq<char>| shown_fields(ms, hide).contains(x) implies both.contains(x) by {
            let i = choose|i: int| 0 <= i < ms.len() && (#[trigger] ms[i]).dom().contains(x);
            if i < n {
                assert(init[i].dom().contains(x));
            }
        }
        vstd::set_lib::lemma_len_subset(shown_fields(ms, hide), both);
    }
}

/// Whether every document of a list has finitely many fields.
pub open spec fn finite_documents(ms: Seq<Fields>) -> bool {
    forall|i: int| 0 <= i < ms.len() ==> (#[trigger] ms[i]).dom().finite()
}

/// Whether names are those that a wildcard stands for: in order, each field of
/// some document that is not hidden.
pub open spec fn are_the_fields(
    ms: Seq<Fields>,
    hide: Set<Seq<char>>,
    names: Seq<Seq<char>>,
) -> bool {
    &&& names_ascend(names)
    &&& forall|n: Seq<char>| #[trigger]
        names.contains(n) <==> !hide.contains(n) && exists|i: int|
            0 <= i < ms.len() && (#[trigger] ms[i]).dom().contains(n)
}

/// A wildcard stands for the fields of the documents, in order, but for the
/// hidden ones.
pub proof fn wildcard_shows_every_field(ms: Seq<Fields>, hide: Set<Seq<char>>)
    requires
        finite_documents(ms),
    ensures
        are_the_fields(ms, hide, in_order(shown_fields(ms, hide))),
{
    let s = shown_fields(ms, hide);
    lemma_shown_fields_finite(ms, hide);
    let ns = lemma_ordered_names(s);
    assert(names_ascend(ns) && forall|n: Seq<char>| #[trigger] ns.contains(n) <==> s.contains(n));
    let r = in_order(s);
    assert(names_ascend(r) && forall|n: Seq<char>| #[trigger] r.contains(n) <==> s.contains(n));
    assert forall|n: Seq<char>| #[trigger] r.contains(n) <==> !hide.contains(n) && exists|i: int|
        0 <= i < ms.len() && (#[trigger] ms[i]).dom().contains(n) by {
        assert(r.contains(n) <==> s.contains(n));
    }
}

/// Whether the machine can count the rows that a page reaches down to.
pub open spec fn page_fits(sel: Select, n: nat) -> bool {
    &&& n <= usize::MAX
    &&& n <= u64::MAX
    &&& usize::MAX == u64::MAX || sel.offset.unwrap_or(0) + sel.limit.unwrap_or(0) <= usize::MAX
}

/// Whether a query sorts its documents itself.
pub open spec fn sorts(sel: Select, presorted: bool, finalize: bool) -> bool {
    finalize && !presorted && sel.order_by@.len() > 0
}

/// Whether places arrange the documents of a query: every document once, by
/// `ORDER BY` where the query sorts, else as they came.
pub open spec fn arranges<
    F: Fn(&Expr, &Document) -> Result<Value, EngineError>,
    G: Fn(&Value, &Value) -> Rank,
>(
    f: F,
    g: G,
    sel: Select,
    ms: Seq<Fields>,
    presorted: bool,
    finalize: bool,
    whole: Seq<int>,
) -> bool {
    &&& whole.len() == ms.len()
    &&& are_places(whole, ms.len())
    &&& if sorts(sel, presorted, finalize) {
        stand_sorted(f, g, sel.order_by@, ms, whole)
    } else {
        forall|i: int| 0 <= i < whole.len() ==> #[trigger] whole[i] == i
    }
}

/// The documents at places.
pub open spec fn docs_at(ms: Seq<Fields>, ps: Seq<int>) -> Seq<Fields> {
    Seq::new(ps.len(), |i: int| ms[ps[i]])
}

/// The places that are shown: the page of them, unless duplicates are still to
/// go or the query is the leg of a compound.
pub open spec fn shown_places(sel: Select, finalize: bool, whole: Seq<int>) -> Seq<int> {
    if finalize && !sel.distinct {
        whole.subrange(
            page_from(whole.len() as int, sel.offset),
            page_to(whole.len() as int, sel.offset, sel.limit),
        )
    } else {
        whole
    }
}

/// The documents that a query shows are its documents, every one once, in the
/// order of their sort keys where it sorts and as they came where it does not,
/// cut to the page where no duplicates are still to go.
pub proof fn shown_documents_are_arranged<
    F: Fn(&Expr, &Document) -> Result<Value, EngineError>,
    G: Fn(&Value, &Value) -> Rank,
>(f: F, g: G, sel: Select, ms: Seq<Fields>, presorted: bool, finalize: bool) -> (whole: Seq<int>)
    requires
        orders_values(g),
        page_fits(sel, ms.len()),
    ensures
        shown_docs(f, g, sel, ms, presorted, finalize) is Ok <==> (sorts(sel, presorted, finalize)
            ==> forall|i: int| 0 <= i < ms.len() ==> has_sort_key(f, sel.order_by@, #[trigger] ms[i])),
        shown_docs(f, g, sel, ms, presorted, finalize) matches Ok(ds) ==> {
            &&& arranges(f, g, sel, ms, presorted, finalize, whole)
            &&& ds == docs_at(ms, shown_places(sel, finalize, whole))
        },
{
    let n = ms.len() as int;
    let lo = page_from(n, sel.offset);
    let hi = page_to(n, sel.offset, sel.limit);
    if sorts(sel, presorted, finalize) {
        let top = rows_wanted(sel);
        let whole = documents_are_sorted(f, g, sel.order_by@, ms, top);
        let out = sorted_docs(
            f,
            g,
            order_exprs(sel.order_by@),
            order_directions(sel.order_by@),
            ms,
            top,
        );
        if out is Ok {
            let ds = out->Ok_0;
            if sel.distinct {
                assert(ds =~= docs_at(ms, whole));
            } else {
                page_is_a_run(ds, sel.offset, sel.limit);
                page_is_a_run(ms, sel.offset, sel.limit);
                assert(page(ds, sel.offset, sel.limit) =~= docs_at(ms, whole.subrange(lo, hi)));
            }
        }
        whole
    } else {
        let whole = Seq::new(ms.len(), |i: int| i);
        assert(docs_at(ms, whole) =~= ms);
        if finalize && !sel.distinct {
            page_is_a_run(ms, sel.offset, sel.limit);
            assert(page(ms, sel.offset, sel.limit) =~= docs_at(ms, whole.subrange(lo, hi)));
        }
        assert(order_exprs(sel.order_by@).len() == sel.order_by@.len());
        whole
    }
}

/// Whether a result's columns are those of a query over the documents it shows.
pub open spec fn has_columns(
    sel: Select,
    shown: Seq<Fields>,
    hide: Set<Seq<char>>,
    names: Seq<Seq<char>>,
    columns: Seq<Seq<char>>,
) -> bool {
    &&& names_columns(sel.items@, names, columns)
    &&& wildcard(sel) ==> are_the_fields(shown, hide, names)
}

/// A query without `DISTINCT` shows each document of its page once, and no
/// others: row by row the documents from the offset on, as many as the limit
/// lets through, in the order of their sort keys.
#[verifier::rlimit(80)]
#[verifier::spinoff_prover]
pub proof fn select_shows_its_page<
    F: Fn(&Expr, &Document) -> Result<Value, EngineError>,
    G: Fn(&Value, &Value) -> Rank,
    K: Fn(&Vec<&Value>) -> Vec<u8>,
>(
    f: F,
    g: G,
    k: K,
    sel: Select,
    ms: Seq<Fields>,
    presorted: bool,
    hide: Set<Seq<char>>,
    finalize: bool,
) -> (r: (Seq<int>, Seq<Seq<char>>))
    requires
        orders_values(g),
        page_fits(sel, ms.len()),
        finite_documents(ms),
        !sel.distinct,
    ensures
        selected(f, g, k, sel, ms, presorted, hide, finalize) matches Ok(rs) ==> {
            let whole = r.0;
            let lo = if finalize {
                page_from(ms.len() as int, sel.offset)
            } else {
                0
            };
            let hi = if finalize {
                page_to(ms.len() as int, sel.offset, sel.limit)
            } else {
                ms.len() as int
            };
            &&& arranges(f, g, sel, ms, presorted, finalize, whole)
            &&& has_columns(sel, docs_at(ms, whole.subrange(lo, hi)), hide, r.1, rs.columns)
            &&& rs.rows.len() == hi - lo
            &&& forall|i: int|
                0 <= i < rs.rows.len() ==> shows(
                    f,
                    sel.items@,
                    r.1,
                    ms[whole[lo + i]],
                    #[trigger] rs.rows[i],
                )
        },
{
    let whole = shown_documents_are_arranged(f, g, sel, ms, presorted, finalize);
    let out = selected(f, g, k, sel, ms, presorted, hide, finalize);
    if out is Ok {
        let ds = shown_docs(f, g, sel, ms, presorted, finalize)->Ok_0;
        let names = lemma_names_of(sel, ms, shown_places(sel, finalize, whole), hide);
        rows_show_their_documents(f, sel.items@, names, ds);
        page_is_a_run(ms, sel.offset, sel.limit);
        if !finalize {
            assert(whole.subrange(0, ms.len() as int) =~= whole);
        }
        (whole, names)
    } else {
        (whole, Seq::empty())
    }
}

/// The names a projection of documents at places stands on.
proof fn lemma_names_of(sel: Select, ms: Seq<Fields>, ps: Seq<int>, hide: Set<Seq<char>>) -> (names:
    Seq<Seq<char>>)
    requires
        finite_documents(ms),
        forall|i: int| 0 <= i < ps.len() ==> 0 <= #[trigger] ps[i] < ms.len(),
    ensures
        names == (if wildcard(sel) {
            in_order(shown_fields(docs_at(ms, ps), hide))
        } else {
            Seq::empty()
        }),
        has_columns(sel, docs_at(ms, ps), hide, names, output_names(sel.items@, names)),
{
    let ds = docs_at(ms, ps);
    assert forall|i: int| 0 <= i < ds.len() implies (#[trigger] ds[i]).dom().finite() by {
        assert(ms[ps[i]].dom().finite());
    }
    wildcard_shows_every_field(ds, hide);
    let names = if wildcard(sel) {
        in_order(shown_fields(ds, hide))
    } else {
        Seq::empty()
    };
    columns_are_named(sel.items@, names);
    names
}

/// A query with `DISTINCT` has a row for each document in the order of the sort
/// keys, lets go of those that repeat an earlier one, and then cuts to the
/// page.
#[verifier::rlimit(80)]
#[verifier::spinoff_prover]
pub proof fn distinct_select_shows_each_row_once<
    F: Fn(&Expr, &Document) -> Result<Value, EngineError>,
    G: Fn(&Value, &Value) -> Rank,
    K: Fn(&Vec<&Value>) -> Vec<u8>,
>(
    f: F,
    g: G,
    k: K,
    sel: Select,
    ms: Seq<Fields>,
    presorted: bool,
    hide: Set<Seq<char>>,
    finalize: bool,
) -> (r: (Seq<int>, Seq<Seq<char>>, Seq<Seq<ValueView>>, Seq<int>))
    requires
        orders_values(g),
        page_fits(sel, ms.len()),
        finite_documents(ms),
        sel.distinct,
    ensures
        selected(f, g, k, sel, ms, presorted, hide, finalize) matches Ok(rs) ==> {
            let whole = r.0;
            let rows = r.2;
            let qs = r.3;
            let lo = if finalize {
                page_from(qs.len() as int, sel.offset)
            } else {
                0
            };
            let hi = if finalize {
                page_to(qs.len() as int, sel.offset, sel.limit)
            } else {
                qs.len() as int
            };
            &&& arranges(f, g, sel, ms, presorted, finalize, whole)
            &&& has_columns(sel, docs_at(ms, whole), hide, r.1, rs.columns)
            &&& rows.len() == ms.len()
            &&& forall|i: int|
                0 <= i < rows.len() ==> shows(
                    f,
                    sel.items@,
                    r.1,
                    ms[whole[i]],
                    #[trigger] rows[i],
                )
            &&& are_the_firsts(k, rows, qs)
            &&& rs.rows.len() == hi - lo
            &&& forall|i: int| 0 <= i < rs.rows.len() ==> #[trigger] rs.rows[i] == rows[qs[lo + i]]
        },
{
    let whole = shown_documents_are_arranged(f, g, sel, ms, presorted, finalize);
    let out = selected(f, g, k, sel, ms, presorted, hide, finalize);
    if out is Ok {
        let ds = shown_docs(f, g, sel, ms, presorted, finalize)->Ok_0;
        let names = lemma_names_of(sel, ms, whole, hide);
        rows_show_their_documents(f, sel.items@, names, ds);
        let rows = projected_rows(f, sel.items@, names, ds)->Ok_0;
        let qs = dedup_keeps_the_first_of_each(k, rows);
        page_is_a_run(deduped(k, rows), sel.offset, sel.limit);
        (whole, names, rows, qs)
    } else {
        (whole, Seq::empty(), Seq::empty(), Seq::empty())
    }
}

/// Whether the rows of a result show documents at places, one each.
pub open spec fn rows_show<F: Fn(&Expr, &Document) -> Result<Value, EngineError>>(
    f: F,
    items: Seq<SelectItem>,
    names: Seq<Seq<char>>,
    ms: Seq<Fields>,
    ps: Seq<int>,
    rows: Seq<Seq<ValueView>>,
) -> bool {
    &&& ps.len() == rows.len()
    &&& are_places(ps, ms.len())
    &&& forall|i: int|
        0 <= i < rows.len() ==> shows(f, items, names, ms[ps[i]], #[trigger] rows[i])
}

proof fn lemma_rows_kept_in_order<
    F: Fn(&Expr, &Document) -> Result<Value, EngineError>,
    G: Fn(&Value, &Value) -> Rank,
>(
    f: F,
    g: G,
    order_by: Seq<OrderKey>,
    items: Seq<SelectItem>,
    names: Seq<Seq<char>>,
    ms: Seq<Fields>,
    whole: Seq<int>,
    rows: Seq<Seq<ValueView>>,
    qs: Seq<int>,
    lo: int,
    out: Seq<Seq<ValueView>>,
) -> (ps: Seq<int>)
    requires
        whole.len() == ms.len(),
        are_places(whole, ms.len()),
        stand_sorted(f, g, order_by, ms, whole),
        rows.len() == ms.len(),
        forall|i: int|
            0 <= i < rows.len() ==> shows(f, items, names, ms[whole[i]], #[trigger] rows[i]),
        go_up(qs, rows.len() as int),
        0 <= lo,
        lo + out.len() <= qs.len(),
        forall|i: int| 0 <= i < out.len() ==> #[trigger] out[i] == rows[qs[lo + i]],
    ensures
        rows_show(f, items, names, ms, ps, out),
        stand_sorted(f, g, order_by, ms, ps),
{
    let ps = Seq::new(out.len(), |i: int| whole[qs[lo + i]]);
    assert(forall|i: int| 0 <= i < ps.len() ==> 0 <= #[trigger] ps[i] < ms.len());
    assert forall|i: int, j: int| 0 <= i < ps.len() && 0 <= j < ps.len() && i != j implies ps[i]
        != ps[j] by {
        assert(qs[lo + i] != qs[lo + j]);
    }
    assert forall|i: int, j: int| 0 <= i < j < ps.len() implies !doc_precedes(
        f,
        g,
        order_by,
        ms[#[trigger] ps[j]],
        ms[#[trigger] ps[i]],
    ) && (doc_precedes(f, g, order_by, ms[ps[i]], ms[ps[j]]) || ps[i] < ps[j]) by {
        assert(qs[lo + i] < qs[lo + j]);
        assert(ps[i] == whole[qs[lo + i]]);
        assert(ps[j] == whole[qs[lo + j]]);
    }
    assert forall|i: int| 0 <= i < out.len() implies shows(
        f,
        items,
        names,
        ms[ps[i]],
        #[trigger] out[i],
    ) by {
        assert(shows(f, items, names, ms[whole[qs[lo + i]]], rows[qs[lo + i]]));
    }
    ps
}

/// The rows of a query that sorts, with `DISTINCT` or without, stand in the
/// order of their documents' sort keys: each comes from a document of its own,
/// and no document sorts before one whose row comes earlier.
#[verifier::rlimit(80)]
#[verifier::spinoff_prover]
pub proof fn rows_come_in_order<
    F: Fn(&Expr, &Document) -> Result<Value, EngineError>,
    G: Fn(&Value, &Value) -> Rank,
    K: Fn(&Vec<&Value>) -> Vec<u8>,
>(f: F, g: G, k: K, sel: Select, ms: Seq<Fields>, hide: Set<Seq<char>>) -> (r: (
    Seq<int>,
    Seq<Seq<char>>,
))
    requires
        orders_values(g),
        page_fits(sel, ms.len()),
        finite_documents(ms),
        sel.order_by@.len() > 0,
    ensures
        selected(f, g, k, sel, ms, false, hide, true) matches Ok(rs) ==> rows_show(
            f,
            sel.items@,
            r.1,
            ms,
            r.0,
            rs.rows,
        ) && stand_sorted(f, g, sel.order_by@, ms, r.0),
{
    let out = selected(f, g, k, sel, ms, false, hide, true);
    if out is Err {
        (Seq::empty(), Seq::empty())
    } else {
        let rs = out->Ok_0;
        if sel.distinct {
            let (whole, names, rows, qs) = distinct_select_shows_each_row_once(
                f,
                g,
                k,
                sel,
                ms,
                false,
                hide,
                true,
            );
            let lo = page_from(qs.len() as int, sel.offset);
            page_is_a_run(qs, sel.offset, sel.limit);
            let ps = lemma_rows_kept_in_order(
                f,
                g,
                sel.order_by@,
                sel.items@,
                names,
                ms,
                whole,
                rows,
                qs,
                lo,
                rs.rows,
            );
            (ps, names)
        } else {
            let (whole, names) = select_shows_its_page(f, g, k, sel, ms, false, hide, true);
            let lo = page_from(ms.len() as int, sel.offset);
            let hi = page_to(ms.len() as int, sel.offset, sel.limit);
            page_is_a_run(ms, sel.offset, sel.limit);
            (whole.subrange(lo, hi), names)
        }
    }
}

/// Whether two queries are the same but for their pages, and the second has
/// none.
pub open spec fn is_unpaged(sel: Select, whole: Select) -> bool {
    &&& whole.distinct == sel.distinct
    &&& whole.items@ == sel.items@
    &&& whole.order_by@ == sel.order_by@
    &&& whole.offset is None
    &&& whole.limit is None
}

/// A query with an offset and a limit shows that run of the rows of the same
/// query without them.
#[verifier::rlimit(80)]
#[verifier::spinoff_prover]
pub proof fn select_pages_cut_the_whole<
    F: Fn(&Expr, &Document) -> Result<Value, EngineError>,
    G: Fn(&Value, &Value) -> Rank,
    K: Fn(&Vec<&Value>) -> Vec<u8>,
>(
    f: F,
    g: G,
    k: K,
    sel: Select,
    whole: Select,
    ms: Seq<Fields>,
    presorted: bool,
    hide: Set<Seq<char>>,
)
    requires
        orders_values(g),
        page_fits(sel, ms.len()),
        !wildcard(sel),
        is_unpaged(sel, whole),
    ensures
        selected(f, g, k, whole, ms, presorted, hide, true) matches Ok(all) ==> {
            &&& selected(f, g, k, sel, ms, presorted, hide, true) is Ok
            &&& selected(f, g, k, sel, ms, presorted, hide, true)->Ok_0.columns == all.columns
            &&& selected(f, g, k, sel, ms, presorted, hide, true)->Ok_0.rows == all.rows.subrange(
                page_from(all.rows.len() as int, sel.offset),
                page_to(all.rows.len() as int, sel.offset, sel.limit),
            )
        },
{
    let out = selected(f, g, k, whole, ms, presorted, hide, true);
    assert(!wildcard(whole)) by {
        if wildcard(whole) {
            let i = choose|i: int|
                0 <= i < whole.items@.len() && (#[trigger] whole.items@[i]) is Wildcard;
            assert(sel.items@[i] is Wildcard);
        }
    }
    if out is Ok {
        let all = out->Ok_0;
        page_is_a_run(all.rows, sel.offset, sel.limit);
        let none = Seq::<Seq<char>>::empty();
        if sel.distinct {
            assert(shown_docs(f, g, sel, ms, presorted, true) == shown_docs(
                f,
                g,
                whole,
                ms,
                presorted,
                true,
            ));
        } else {
            let top = rows_wanted(sel);
            let sorted = shown_docs(f, g, whole, ms, presorted, true)->Ok_0;
            let shown = shown_docs(f, g, sel, ms, presorted, true)->Ok_0;
            let n = ms.len() as int;
            let lo = page_from(n, sel.offset);
            let hi = page_to(n, sel.offset, sel.limit);
            lemma_shown_page(f, g, sel, whole, ms, presorted);
            page_is_a_run(sorted, sel.offset, sel.limit);
            rows_show_their_documents(f, sel.items@, none, sorted);
            assert forall|i: int| 0 <= i < shown.len() implies items_evaluate(
                f,
                sel.items@,
                #[trigger] shown[i],
            ) by {
                assert(shown[i] == sorted[lo + i]);
            }
            rows_show_their_documents(f, sel.items@, none, shown);
            lemma_projected_run(f, sel.items@, none, sorted, lo, hi);
        }
    }
}

proof fn lemma_shown_page<
    F: Fn(&Expr, &Document) -> Result<Value, EngineError>,
    G: Fn(&Value, &Value) -> Rank,
>(f: F, g: G, sel: Select, whole: Select, ms: Seq<Fields>, presorted: bool)
    requires
        orders_values(g),
        page_fits(sel, ms.len()),
        is_unpaged(sel, whole),
        !sel.distinct,
        shown_docs(f, g, whole, ms, presorted, true) is Ok,
    ensures
        ({
            let sorted = shown_docs(f, g, whole, ms, presorted, true)->Ok_0;
            let n = ms.len() as int;
            &&& sorted.len() == n
            &&& shown_docs(f, g, sel, ms, presorted, true) == Ok::<Seq<Fields>, EngineError>(
                sorted.subrange(
                    page_from(n, sel.offset),
                    page_to(n, sel.offset, sel.limit),
                ),
            )
        }),
{
    let sorted = shown_docs(f, g, whole, ms, presorted, true)->Ok_0;
    page_is_a_run(ms, sel.offset, sel.limit);
    if sorts(sel, presorted, true) {
        let top = rows_wanted(sel);
        let ps = documents_are_sorted(f, g, sel.order_by@, ms, None);
        let qs = documents_are_sorted(f, g, sel.order_by@, ms, top);
        let out = sorted_docs(
            f,
            g,
            order_exprs(sel.order_by@),
            order_directions(sel.order_by@),
            ms,
            top,
        );
        assert(out is Ok);
        let ds = out->Ok_0;
        crate::sort_laws::lemma_sorted_cut(f, g, sel.order_by@, ms, top);
        page_is_a_run(ds, sel.offset, sel.limit);
        page_is_a_run(sorted, sel.offset, sel.limit);
        assert(page(ds, sel.offset, sel.limit) =~= page(sorted, sel.offset, sel.limit));
    } else {
        assert(order_exprs(sel.order_by@).len() == sel.order_by@.len());
    }
}

proof fn lemma_projected_run<F: Fn(&Expr, &Document) -> Result<Value, EngineError>>(
    f: F,
    items: Seq<SelectItem>,
    names: Seq<Seq<char>>,
    ms: Seq<Fields>,
    lo: int,
    hi: int,
)
    requires
        0 <= lo <= hi <= ms.len(),
        projected_rows(f, items, names, ms) is Ok,
    ensures
        projected_rows(f, items, names, ms.subrange(lo, hi)) == Ok::<
            Seq<Seq<ValueView>>,
            EngineError,
        >(projected_rows(f, items, names, ms)->Ok_0.subrange(lo, hi)),
    decreases ms.len(),
{
    rows_show_their_documents(f, items, names, ms);
    let rows = projected_rows(f, items, names, ms)->Ok_0;
    if hi < ms.len() {
        let init = ms.drop_last();
        lemma_projected_run(f, items, names, init, lo, hi);
        rows_show_their_documents(f, items, names, init);
        assert(init.subrange(lo, hi) =~= ms.subrange(lo, hi));
        assert(rows.subrange(lo, hi) =~= rows.drop_last().subrange(lo, hi));
        assert(rows.drop_last() =~= projected_rows(f, items, names, init)->Ok_0);
    } else if lo < hi {
        let init = ms.drop_last();
        lemma_projected_run(f, items, names, init, lo, hi - 1);
        rows_show_their_documents(f, items, names, init);
        assert(ms.subrange(lo, hi).drop_last() =~= init.subrange(lo, hi - 1));
        assert(ms.subrange(lo, hi).last() == ms.last());
        let before = projected_rows(f, items, names, init)->Ok_0;
        assert(rows =~= before.push(rows.last()));
        assert(rows.subrange(lo, hi) =~= before.subrange(lo, hi - 1).push(rows.last()));
    } else {
        assert(ms.subrange(lo, hi) =~= Seq::<Fields>::empty());
        assert(rows.subrange(lo, hi) =~= Seq::<Seq<ValueView>>::empty());
    }
}

/// A gather is cut short only for a query whose page is cut from its rows as
/// they come, one without groups or `DISTINCT`, and then not before the end of
/// the page: what is left out shows in no page.
pub proof fn a_limited_gather_holds_the_page<T>(sel: Select, rows: Seq<T>)
    requires
        rows.len() <= u64::MAX,
    ensures
        gather_limit(sel) matches Some(n) ==> {
            &&& sel.limit is Some
            &&& !sel.distinct
            &&& !crate::projection::grouped(sel)
            &&& n < rows.len() ==> page(rows.take(n as int), sel.offset, sel.limit) == page(
                rows,
                sel.offset,
                sel.limit,
            )
        },
{
    if let Some(n) = gather_limit(sel) {
        if n < rows.len() {
            let few = rows.take(n as int);
            page_is_a_run(few, sel.offset, sel.limit);
            page_is_a_run(rows, sel.offset, sel.limit);
            assert(page(few, sel.offset, sel.limit) =~= page(rows, sel.offset, sel.limit));
        }
    }
}

} // verus!
