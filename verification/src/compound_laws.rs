//! What the rows of a compound query are: those of its legs one after the
//! other, sorted by the output columns, and cut to the page.

use vstd::prelude::*;

use crate::ast::Expr;
use crate::ast::Select;
use crate::error::EngineError;
use crate::model::Fields;
use crate::model::ValueView;
use crate::order::page;
use crate::order::Rank;
use crate::results::at_places;
use crate::results::deduped;
use crate::results::finalized;
use crate::results::order_directions;
use crate::results::order_exprs;
use crate::results::output_doc;
use crate::results::output_docs;
use crate::results::sorted_output;
use crate::results::width;
use crate::results::with_set_op;
use crate::results::ResultView;
use crate::select_laws::are_the_firsts;
use crate::select_laws::dedup_keeps_the_first_of_each;
use crate::select_laws::page_from;
use crate::select_laws::page_is_a_run;
use crate::select_laws::page_to;
use crate::sort_laws::are_places;
use crate::sort_laws::lemma_key_order;
use crate::sort_laws::orders_values;
use crate::sort_laws::sort_keys_are_of_the_documents;
use crate::sort_laws::stand_sorted;
use crate::value::Document;
use crate::value::Value;

verus! {

/// Whether two compound queries are the same at their end but for their pages.
pub open spec fn ends_alike(a: Select, b: Select) -> bool {
    a.distinct == b.distinct && a.order_by@ == b.order_by@
}

/// A compound query with an offset and a limit shows that run of the rows that
/// the same query shows without them, and fails just where that one does.
pub proof fn compound_pages_cut_the_whole<
    F: Fn(&Expr, &Document) -> Result<Value, EngineError>,
    G: Fn(&Value, &Value) -> Rank,
    K: Fn(&Vec<&Value>) -> Vec<u8>,
>(f: F, g: G, k: K, sel: Select, whole: Select, rs: ResultView)
    requires
        ends_alike(sel, whole),
        whole.offset is None,
        whole.limit is None,
    ensures
        match finalized(f, g, k, whole, rs) {
            Err(e) => finalized(f, g, k, sel, rs) == Err::<ResultView, EngineError>(e),
            Ok(all) => finalized(f, g, k, sel, rs) == Ok::<ResultView, EngineError>(
                ResultView {
                    columns: all.columns,
                    rows: all.rows.subrange(
                        page_from(all.rows.len() as int, sel.offset),
                        page_to(all.rows.len() as int, sel.offset, sel.limit),
                    ),
                },
            ),
        },
{
    if let Ok(all) = finalized(f, g, k, whole, rs) {
        page_is_a_run(all.rows, sel.offset, sel.limit);
    }
}

/// A page of a compound query and the page behind it are together the page of
/// both their lengths, so that consecutive pages come to the whole result.
pub proof fn compound_pages_follow_each_other<
    F: Fn(&Expr, &Document) -> Result<Value, EngineError>,
    G: Fn(&Value, &Value) -> Rank,
    K: Fn(&Vec<&Value>) -> Vec<u8>,
>(f: F, g: G, k: K, first: Select, second: Select, both: Select, rs: ResultView)
    requires
        ends_alike(first, both),
        ends_alike(second, both),
        first.limit is Some,
        second.offset is Some,
        second.offset->0 == first.offset.unwrap_or(0) + first.limit->0,
        both.offset == first.offset,
        match second.limit {
            None => both.limit is None,
            Some(l) => both.limit is Some && both.limit->0 == first.limit->0 + l,
        },
    ensures
        finalized(f, g, k, first, rs) is Ok <==> finalized(f, g, k, both, rs) is Ok,
        finalized(f, g, k, second, rs) is Ok <==> finalized(f, g, k, both, rs) is Ok,
        finalized(f, g, k, both, rs) matches Ok(all) ==> all.rows == finalized(
            f,
            g,
            k,
            first,
            rs,
        )->Ok_0.rows + finalized(f, g, k, second, rs)->Ok_0.rows,
{
    let unique = ResultView {
        columns: rs.columns,
        rows: if both.distinct {
            deduped(k, rs.rows)
        } else {
            rs.rows
        },
    };
    let sorted = if both.order_by@.len() > 0 {
        sorted_output(f, g, both.order_by@, unique)
    } else {
        Ok(unique.rows)
    };
    if let Ok(rows) = sorted {
        lemma_pages_follow(
            rows,
            first.offset,
            first.limit->0,
            second.offset->0,
            second.limit,
            both.limit,
        );
    }
}

proof fn lemma_pages_follow<T>(
    rows: Seq<T>,
    offset: Option<u64>,
    limit: u64,
    next: u64,
    next_limit: Option<u64>,
    both: Option<u64>,
)
    requires
        next == offset.unwrap_or(0) + limit,
        match next_limit {
            None => both is None,
            Some(l) => both is Some && both->0 == limit + l,
        },
    ensures
        page(rows, offset, both) == page(rows, offset, Some(limit)) + page(
            rows,
            Some(next),
            next_limit,
        ),
{
    page_is_a_run(rows, offset, Some(limit));
    page_is_a_run(rows, Some(next), next_limit);
    page_is_a_run(rows, offset, both);
    let n = rows.len() as int;
    let a = page_from(n, offset);
    let b = page_to(n, offset, Some(limit));
    let c = page_to(n, Some(next), next_limit);
    assert(page_from(n, Some(next)) == b);
    assert(page_to(n, offset, both) == c);
    assert(rows.subrange(a, c) =~= rows.subrange(a, b) + rows.subrange(b, c));
}

/// Whether a document stands for a row under its columns: a field for each
/// column that has a value, the last of those that share a name.
pub open spec fn stands_for_row(
    columns: Seq<Seq<char>>,
    row: Seq<ValueView>,
    m: Fields,
) -> bool {
    &&& forall|n: Seq<char>| #[trigger]
        m.dom().contains(n) <==> exists|c: int|
            0 <= c < columns.len() && c < row.len() && #[trigger] columns[c] == n
    &&& forall|c: int|
        0 <= c < columns.len() && c < row.len() && (forall|later: int|
            c < later < columns.len() && later < row.len() ==> #[trigger] columns[later]
                != columns[c]) ==> m[#[trigger] columns[c]] == row[c]
}

proof fn lemma_output_doc(columns: Seq<Seq<char>>, row: Seq<ValueView>, n: nat)
    requires
        n <= columns.len(),
        n <= row.len(),
    ensures
        forall|x: Seq<char>| #[trigger]
            output_doc(columns, row, n).dom().contains(x) <==> exists|c: int|
                0 <= c < n && #[trigger] columns[c] == x,
        forall|c: int|
            0 <= c < n && (forall|later: int|
                c < later < n ==> #[trigger] columns[later] != columns[c]) ==> output_doc(
                columns,
                row,
                n,
            )[#[trigger] columns[c]] == row[c],
    decreases n,
{
    if n > 0 {
        let p = (n - 1) as nat;
        lemma_output_doc(columns, row, p);
        let m = output_doc(columns, row, n);
        assert forall|x: Seq<char>| #[trigger] m.dom().contains(x) <==> exists|c: int|
            0 <= c < n && #[trigger] columns[c] == x by {
            let before = output_doc(columns, row, p);
            if m.dom().contains(x) {
                if x == columns[p as int] {
                } else {
                    assert(before.dom().contains(x));
                    let c = choose|c: int| 0 <= c < p && #[trigger] columns[c] == x;
                    assert(columns[c] == x);
                }
            }
            if exists|c: int| 0 <= c < n && #[trigger] columns[c] == x {
                let c = choose|c: int| 0 <= c < n && #[trigger] columns[c] == x;
                if c < p {
                    assert(before.dom().contains(x));
                }
            }
        }
        assert forall|c: int|
            0 <= c < n && (forall|later: int|
                c < later < n ==> #[trigger] columns[later] != columns[c]) implies m[
        #[trigger] columns[c]] == row[c] by {
            if c < p {
                assert(columns[p as int] != columns[c]);
            }
        }
    }
}

/// The documents that a compound query sorts by stand for its rows.
pub proof fn output_documents_stand_for_rows(rs: ResultView)
    ensures
        output_docs(rs).len() == rs.rows.len(),
        forall|i: int|
            0 <= i < rs.rows.len() ==> stands_for_row(
                rs.columns,
                rs.rows[i],
                #[trigger] output_docs(rs)[i],
            ),
{
    let ms = output_docs(rs);
    assert forall|i: int| 0 <= i < rs.rows.len() implies stands_for_row(
        rs.columns,
        rs.rows[i],
        #[trigger] ms[i],
    ) by {
        let row = rs.rows[i];
        let w = width(rs.columns, row);
        lemma_output_doc(rs.columns, row, w);
        let m = output_doc(rs.columns, row, w);
        assert(ms[i] == m);
        assert forall|n: Seq<char>| #[trigger] m.dom().contains(n) <==> exists|c: int|
            0 <= c < rs.columns.len() && c < row.len() && #[trigger] rs.columns[c] == n by {
            if m.dom().contains(n) {
                let c = choose|c: int| 0 <= c < w && #[trigger] rs.columns[c] == n;
                assert(rs.columns[c] == n);
            }
            if exists|c: int|
                0 <= c < rs.columns.len() && c < row.len() && #[trigger] rs.columns[c] == n {
                let c = choose|c: int|
                    0 <= c < rs.columns.len() && c < row.len() && #[trigger] rs.columns[c] == n;
                assert(0 <= c < w && rs.columns[c] == n);
            }
        }
        assert forall|c: int|
            0 <= c < rs.columns.len() && c < row.len() && (forall|later: int|
                c < later < rs.columns.len() && later < row.len() ==> #[trigger] rs.columns[later]
                    != rs.columns[c]) implies m[#[trigger] rs.columns[c]] == row[c] by {
            assert(forall|later: int|
                c < later < w ==> #[trigger] rs.columns[later] != rs.columns[c]);
        }
    }
}

/// Whether documents stand for rows, one each.
pub open spec fn stand_for_rows(
    columns: Seq<Seq<char>>,
    rows: Seq<Seq<ValueView>>,
    ms: Seq<Fields>,
) -> bool {
    &&& ms.len() == rows.len()
    &&& forall|i: int| 0 <= i < rows.len() ==> stands_for_row(columns, rows[i], #[trigger] ms[i])
}

/// A compound query ends in the rows that are left without duplicates where
/// `DISTINCT` asks for that, every one once, in the order of the sort keys over
/// the output columns where it sorts and as they came where it does not, cut to
/// the page.
#[verifier::rlimit(80)]
#[verifier::spinoff_prover]
pub proof fn compound_rows_are_arranged<
    F: Fn(&Expr, &Document) -> Result<Value, EngineError>,
    G: Fn(&Value, &Value) -> Rank,
    K: Fn(&Vec<&Value>) -> Vec<u8>,
>(f: F, g: G, k: K, sel: Select, rs: ResultView) -> (r: (Seq<int>, Seq<Fields>, Seq<int>))
    requires
        orders_values(g),
    ensures
        finalized(f, g, k, sel, rs) matches Ok(out) ==> {
            let qs = r.0;
            let ms = r.1;
            let whole = r.2;
            let kept = at_places(rs.rows, qs);
            let lo = page_from(kept.len() as int, sel.offset);
            let hi = page_to(kept.len() as int, sel.offset, sel.limit);
            &&& if sel.distinct {
                are_the_firsts(k, rs.rows, qs)
            } else {
                qs == Seq::new(rs.rows.len(), |i: int| i)
            }
            &&& whole.len() == kept.len()
            &&& are_places(whole, kept.len())
            &&& if sel.order_by@.len() > 0 {
                stand_for_rows(rs.columns, kept, ms) && stand_sorted(
                    f,
                    g,
                    sel.order_by@,
                    ms,
                    whole,
                )
            } else {
                forall|i: int| 0 <= i < whole.len() ==> #[trigger] whole[i] == i
            }
            &&& out.columns == rs.columns
            &&& out.rows.len() == hi - lo
            &&& forall|i: int|
                0 <= i < out.rows.len() ==> #[trigger] out.rows[i] == kept[whole[lo + i]]
        },
{
    let qs = if sel.distinct {
        dedup_keeps_the_first_of_each(k, rs.rows)
    } else {
        Seq::new(rs.rows.len(), |i: int| i)
    };
    let unique = ResultView {
        columns: rs.columns,
        rows: if sel.distinct {
            deduped(k, rs.rows)
        } else {
            rs.rows
        },
    };
    let kept = at_places(rs.rows, qs);
    assert(unique.rows =~= kept);
    if sel.order_by@.len() > 0 {
        let ms = output_docs(unique);
        output_documents_stand_for_rows(unique);
        sort_keys_are_of_the_documents(f, sel.order_by@, ms);
        match crate::results::key_tuples(f, order_exprs(sel.order_by@), ms) {
            Err(e) => (qs, ms, Seq::empty()),
            Ok(ks) => {
                lemma_key_order(f, g, sel.order_by@, ms, ks, None);
                let whole = crate::results::key_order(g, ks, order_directions(sel.order_by@), None);
                let rows = at_places(kept, whole);
                page_is_a_run(rows, sel.offset, sel.limit);
                (qs, ms, whole)
            },
        }
    } else {
        page_is_a_run(kept, sel.offset, sel.limit);
        (qs, Seq::empty(), Seq::new(kept.len(), |i: int| i))
    }
}

/// Another leg of a compound query adds its rows behind those there are: all of
/// them with `ALL`, else without those that repeat an earlier one. It is
/// refused where it has another number of columns, and only there.
pub proof fn a_leg_adds_its_rows<K: Fn(&Vec<&Value>) -> Vec<u8>>(
    k: K,
    rs: ResultView,
    leg: ResultView,
    all: bool,
) -> (qs: Seq<int>)
    ensures
        with_set_op(k, rs, leg, all) is Ok <==> leg.columns.len() == rs.columns.len(),
        with_set_op(k, rs, leg, all) matches Ok(out) ==> {
            &&& out.columns == rs.columns
            &&& if all {
                qs == Seq::new((rs.rows + leg.rows).len(), |i: int| i)
            } else {
                are_the_firsts(k, rs.rows + leg.rows, qs)
            }
            &&& out.rows == at_places(rs.rows + leg.rows, qs)
        },
        with_set_op(k, rs, leg, all) matches Err(e) ==> e is Unsupported,
{
    let rows = rs.rows + leg.rows;
    if all {
        let qs = Seq::new(rows.len(), |i: int| i);
        assert(at_places(rows, qs) =~= rows);
        qs
    } else {
        let qs = dedup_keeps_the_first_of_each(k, rows);
        assert(at_places(rows, qs) =~= deduped(k, rows));
        qs
    }
}

} // verus!
