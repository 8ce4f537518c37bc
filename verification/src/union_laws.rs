//! What a compound query comes to over a deployment: the rows of its legs.

use vstd::prelude::*;

use crate::aggregate::AggOutcome;
use crate::ast::AggArg;
use crate::ast::AggFunc;
use crate::ast::Expr;
use crate::ast::Select;
use crate::cluster::Cluster;
use crate::compound_laws::a_leg_adds_its_rows;
use crate::compound_laws::compound_pages_cut_the_whole;
use crate::error::EngineError;
use crate::error::ErrorView;
use crate::executor::compound_result;
use crate::executor::core_result;
use crate::executor::legs_result;
use crate::executor::Semantics;
use crate::model::ValueView;
use crate::order::Rank;
use crate::results::at_places;
use crate::results::ResultView;
use crate::select_laws::page_from;
use crate::select_laws::page_to;
use crate::value::Document;
use crate::value::Value;

verus! {

/// The rows that the first core and the first `n` legs of a compound query have
/// one after the other.
pub open spec fn rows_in_turn<
    C: Cluster,
    F: Fn(&Expr, &Document) -> Result<Value, EngineError>,
    G: Fn(&Value, &Value) -> Rank,
    K: Fn(&Vec<&Value>) -> Vec<u8>,
    D: Fn(&Vec<&Value>) -> Vec<u8>,
    A: Fn(&Expr, &Vec<&Document>) -> Result<Value, EngineError>,
    H: Fn(&Expr, &Vec<&Document>) -> Result<bool, EngineError>,
    P: Fn(&Expr, &Document) -> Result<bool, EngineError>,
    J: Fn(&Document, &String) -> Option<Vec<u8>>,
    M: Fn(&Value, &Value) -> Option<Rank>,
    T: Fn(&Value) -> Option<i64>,
    Z: Fn(&AggFunc, &AggArg, &Vec<&Document>, AggOutcome) -> Result<Value, EngineError>,
>(c: C, s: Semantics<F, G, K, D, A, H, P, J, M, T, Z>, sel: Select, n: nat) -> Seq<
    Seq<Seq<ValueView>>,
> {
    Seq::new(
        (n + 1) as nat,
        |i: int|
            if i == 0 {
                core_result(c, s, sel)->Ok_0.rows
            } else {
                core_result(c, s, sel.set_ops@[i - 1].select)->Ok_0.rows
            },
    )
}

/// `UNION ALL` gives the rows of every leg, one leg after the other, under the
/// columns of the first; and every leg has as many columns as that.
pub proof fn union_all_concatenates_its_legs<
    C: Cluster,
    F: Fn(&Expr, &Document) -> Result<Value, EngineError>,
    G: Fn(&Value, &Value) -> Rank,
    K: Fn(&Vec<&Value>) -> Vec<u8>,
    D: Fn(&Vec<&Value>) -> Vec<u8>,
    A: Fn(&Expr, &Vec<&Document>) -> Result<Value, EngineError>,
    H: Fn(&Expr, &Vec<&Document>) -> Result<bool, EngineError>,
    P: Fn(&Expr, &Document) -> Result<bool, EngineError>,
    J: Fn(&Document, &String) -> Option<Vec<u8>>,
    M: Fn(&Value, &Value) -> Option<Rank>,
    T: Fn(&Value) -> Option<i64>,
    Z: Fn(&AggFunc, &AggArg, &Vec<&Document>, AggOutcome) -> Result<Value, EngineError>,
>(c: C, s: Semantics<F, G, K, D, A, H, P, J, M, T, Z>, sel: Select, n: nat)
    requires
        n <= sel.set_ops@.len(),
        forall|i: int| 0 <= i < n ==> (#[trigger] sel.set_ops@[i]).all,
    ensures
        legs_result(c, s, sel, n) matches Ok(out) ==> {
            &&& core_result(c, s, sel) is Ok
            &&& out.columns == core_result(c, s, sel)->Ok_0.columns
            &&& out.rows == rows_in_turn(c, s, sel, n).flatten()
            &&& forall|i: int|
                0 <= i < n ==> (core_result(c, s, (#[trigger] sel.set_ops@[i]).select) matches Ok(leg)
                    && leg.columns.len() == out.columns.len())
        },
    decreases n,
{
    let parts = rows_in_turn(c, s, sel, n);
    parts.lemma_flatten_and_flatten_alt_are_equivalent();
    if n == 0 {
        if let Ok(out) = legs_result(c, s, sel, n) {
            parts.lemma_flatten_one_element();
            assert(parts.first() == out.rows);
        }
    } else {
        let m = (n - 1) as nat;
        union_all_concatenates_its_legs(c, s, sel, m);
        let before = rows_in_turn(c, s, sel, m);
        before.lemma_flatten_and_flatten_alt_are_equivalent();
        assert(parts.drop_last() =~= before);
        if legs_result(c, s, sel, n) is Ok {
            let rs = legs_result(c, s, sel, m)->Ok_0;
            let out = legs_result(c, s, sel, n)->Ok_0;
            let leg = core_result(c, s, sel.set_ops@[n - 1].select)->Ok_0;
            assert(sel.set_ops@[n - 1].all);
            let qs = a_leg_adds_its_rows(s.row_key, rs, leg, true);
            assert(at_places(rs.rows + leg.rows, qs) =~= rs.rows + leg.rows);
            assert(parts.last() == leg.rows);
            assert(out.rows == rs.rows + leg.rows);
        }
    }
}

/// A leg of a compound query keeps the columns, and where it is not `ALL` leaves
/// no two rows that encode alike, and the encoding of every row on both sides.
pub proof fn union_leaves_each_row_once<
    C: Cluster,
    F: Fn(&Expr, &Document) -> Result<Value, EngineError>,
    G: Fn(&Value, &Value) -> Rank,
    K: Fn(&Vec<&Value>) -> Vec<u8>,
    D: Fn(&Vec<&Value>) -> Vec<u8>,
    A: Fn(&Expr, &Vec<&Document>) -> Result<Value, EngineError>,
    H: Fn(&Expr, &Vec<&Document>) -> Result<bool, EngineError>,
    P: Fn(&Expr, &Document) -> Result<bool, EngineError>,
    J: Fn(&Document, &String) -> Option<Vec<u8>>,
    M: Fn(&Value, &Value) -> Option<Rank>,
    T: Fn(&Value) -> Option<i64>,
    Z: Fn(&AggFunc, &AggArg, &Vec<&Document>, AggOutcome) -> Result<Value, EngineError>,
>(c: C, s: Semantics<F, G, K, D, A, H, P, J, M, T, Z>, sel: Select, n: nat) -> (qs: Seq<int>)
    requires
        n < sel.set_ops@.len(),
        !sel.set_ops@[n as int].all,
    ensures
        legs_result(c, s, sel, n + 1) matches Ok(out) ==> {
            let rs = legs_result(c, s, sel, n);
            let leg = core_result(c, s, sel.set_ops@[n as int].select);
            &&& rs is Ok
            &&& leg is Ok
            &&& out.columns == rs->Ok_0.columns
            &&& crate::select_laws::are_the_firsts(s.row_key, rs->Ok_0.rows + leg->Ok_0.rows, qs)
            &&& out.rows == at_places(rs->Ok_0.rows + leg->Ok_0.rows, qs)
        },
{
    match (legs_result(c, s, sel, n), core_result(c, s, sel.set_ops@[n as int].select)) {
        (Ok(rs), Ok(leg)) => a_leg_adds_its_rows(s.row_key, rs, leg, false),
        _ => Seq::empty(),
    }
}

/// The page of a compound query over a deployment is that run of the rows that
/// a query without a page has in full, where the legs of both come to the same
/// and they end alike.
pub proof fn compound_results_are_pages_of_the_whole<
    C: Cluster,
    F: Fn(&Expr, &Document) -> Result<Value, EngineError>,
    G: Fn(&Value, &Value) -> Rank,
    K: Fn(&Vec<&Value>) -> Vec<u8>,
    D: Fn(&Vec<&Value>) -> Vec<u8>,
    A: Fn(&Expr, &Vec<&Document>) -> Result<Value, EngineError>,
    H: Fn(&Expr, &Vec<&Document>) -> Result<bool, EngineError>,
    P: Fn(&Expr, &Document) -> Result<bool, EngineError>,
    J: Fn(&Document, &String) -> Option<Vec<u8>>,
    M: Fn(&Value, &Value) -> Option<Rank>,
    T: Fn(&Value) -> Option<i64>,
    Z: Fn(&AggFunc, &AggArg, &Vec<&Document>, AggOutcome) -> Result<Value, EngineError>,
>(c: C, s: Semantics<F, G, K, D, A, H, P, J, M, T, Z>, sel: Select, whole: Select)
    requires
        crate::compound_laws::ends_alike(sel, whole),
        whole.offset is None,
        whole.limit is None,
        whole.set_ops@.len() == sel.set_ops@.len(),
        legs_result(c, s, whole, whole.set_ops@.len()) == legs_result(
            c,
            s,
            sel,
            sel.set_ops@.len(),
        ),
    ensures
        match compound_result(c, s, whole) {
            Err(e) => compound_result(c, s, sel) == Err::<ResultView, ErrorView>(e),
            Ok(all) => compound_result(c, s, sel) == Ok::<ResultView, ErrorView>(
                ResultView {
                    columns: all.columns,
                    rows: all.rows.subrange(
                        page_from(all.rows.len() as int, sel.offset),
                        page_to(all.rows.len() as int, sel.offset, sel.limit),
                    ),
                },
            ),
        },
{
    if let Ok(rs) = legs_result(c, s, sel, sel.set_ops@.len()) {
        compound_pages_cut_the_whole(s.eval, s.rank, s.row_key, sel, whole, rs);
    }
}

} // verus!
