//! What the parts that a filter is taken into mean: the comparisons that bound
//! its columns, and the inequalities that are counted apart.

use vstd::prelude::*;

use crate::ast::BinaryOp;
use crate::ast::Expr;
use crate::bytes::bytes_lt;
use crate::constraints::apart;
use crate::constraints::comparisons;
use crate::constraints::conjunctive;
use crate::constraints::flipped;
use crate::constraints::is_null_of;
use crate::constraints::literal_comparison;
use crate::constraints::neq_of;
use crate::constraints::null_safe_neq;
use crate::constraints::order_key;
use crate::constraints::satisfies;
use crate::constraints::satisfies_all;
use crate::constraints::ComparisonView;
use crate::value::Value;

verus! {

/// A row as a filter sees it: the values of its columns, and the other
/// conditions that are true of it.
pub struct RowFacts {
    pub columns: spec_fn(Seq<char>) -> Value,
    pub others: Set<Expr>,
}

/// Whether two order keys stand as an operator says.
pub open spec fn keys_compare(x: Seq<u8>, op: BinaryOp, y: Seq<u8>) -> bool {
    match op {
        BinaryOp::Eq => x == y,
        BinaryOp::NotEq => x != y,
        BinaryOp::Lt => bytes_lt(x, y),
        BinaryOp::LtEq => bytes_lt(x, y) || x == y,
        BinaryOp::Gt => bytes_lt(y, x),
        BinaryOp::GtEq => bytes_lt(y, x) || x == y,
        _ => false,
    }
}

/// Whether an operator compares two values.
pub open spec fn is_comparison(op: BinaryOp) -> bool {
    op == BinaryOp::Eq || op == BinaryOp::NotEq || op == BinaryOp::Lt || op == BinaryOp::LtEq || op
        == BinaryOp::Gt || op == BinaryOp::GtEq
}

/// Whether a condition is true of a row: `AND` and `OR` as in logic; a column
/// against a literal, on either side, by their order keys, which is not true of
/// a `NULL`; `BETWEEN` with both bounds; `IS NULL`; any other as the row has it.
pub open spec fn filter_true<F: Fn(&Value) -> Vec<u8>>(key: F, row: RowFacts, e: Expr) -> bool
    decreases e,
{
    match e {
        Expr::Binary { op, left, right } => if op == BinaryOp::And {
            filter_true(key, row, *left) && filter_true(key, row, *right)
        } else if op == BinaryOp::Or {
            filter_true(key, row, *left) || filter_true(key, row, *right)
        } else if is_comparison(op) {
            match (*left, *right) {
                (Expr::Column(c), Expr::Literal(v)) => !(v is Null) && !((row.columns)(c@) is Null)
                    && keys_compare(order_key(key, (row.columns)(c@)), op, order_key(key, v)),
                (Expr::Literal(v), Expr::Column(c)) => !(v is Null) && !((row.columns)(c@) is Null)
                    && keys_compare(order_key(key, v), op, order_key(key, (row.columns)(c@))),
                _ => row.others.contains(e),
            }
        } else {
            row.others.contains(e)
        },
        Expr::Between { expr, lo, hi, negated } => match *expr {
            Expr::Column(c) => if negated {
                row.others.contains(e)
            } else {
                &&& *lo matches Expr::Literal(v) ==> keys_compare(
                    order_key(key, v),
                    BinaryOp::LtEq,
                    order_key(key, (row.columns)(c@)),
                )
                &&& *hi matches Expr::Literal(v) ==> keys_compare(
                    order_key(key, (row.columns)(c@)),
                    BinaryOp::LtEq,
                    order_key(key, v),
                )
                &&& (!(*lo is Literal) || !(*hi is Literal)) ==> row.others.contains(e)
            },
            _ => row.others.contains(e),
        },
        Expr::IsNull { expr, negated } => match *expr {
            Expr::Column(c) => ((row.columns)(c@) is Null) != negated,
            _ => row.others.contains(e),
        },
        _ => row.others.contains(e),
    }
}

proof fn lemma_all_of_both<F: Fn(&Value) -> Vec<u8>>(
    key: F,
    columns: spec_fn(Seq<char>) -> Value,
    a: Seq<ComparisonView>,
    b: Seq<ComparisonView>,
)
    ensures
        satisfies_all(key, columns, a + b) <==> satisfies_all(key, columns, a) && satisfies_all(
            key,
            columns,
            b,
        ),
{
    let both = a + b;
    if satisfies_all(key, columns, both) {
        assert forall|k: int| 0 <= k < a.len() implies satisfies(key, columns, #[trigger] a[k]) by {
            assert(both[k] == a[k]);
        }
        assert forall|k: int| 0 <= k < b.len() implies satisfies(key, columns, #[trigger] b[k]) by {
            assert(both[a.len() + k] == b[k]);
        }
    }
}

proof fn lemma_one_comparison<F: Fn(&Value) -> Vec<u8>>(
    key: F,
    columns: spec_fn(Seq<char>) -> Value,
    col: Seq<char>,
    op: BinaryOp,
    v: Value,
)
    requires
        op == BinaryOp::Eq || op == BinaryOp::Lt || op == BinaryOp::LtEq || op == BinaryOp::Gt || op
            == BinaryOp::GtEq,
    ensures
        v is Null || (satisfies_all(key, columns, literal_comparison(col, op, Expr::Literal(v)))
            <==> keys_compare(order_key(key, columns(col)), op, order_key(key, v))),
        v is Null ==> satisfies_all(key, columns, literal_comparison(col, op, Expr::Literal(v))),
{
    let ms = literal_comparison(col, op, Expr::Literal(v));
    if !(v is Null) {
        assert(ms.len() == 1);
        assert(ms[0] == (ComparisonView { col, op, value: v }));
        if satisfies_all(key, columns, ms) {
            assert(satisfies(key, columns, ms[0]));
        }
    }
}

/// The comparisons of a filter lose nothing: a row that the filter is true of
/// satisfies every one of them.
pub proof fn comparisons_follow_from_the_filter<F: Fn(&Value) -> Vec<u8>>(
    key: F,
    row: RowFacts,
    e: Expr,
)
    requires
        filter_true(key, row, e),
    ensures
        satisfies_all(key, row.columns, comparisons(e)),
    decreases e,
{
    match e {
        Expr::Binary { op, left, right } => {
            if op == BinaryOp::And {
                comparisons_follow_from_the_filter(key, row, *left);
                comparisons_follow_from_the_filter(key, row, *right);
                lemma_all_of_both(key, row.columns, comparisons(*left), comparisons(*right));
            } else if crate::constraints::compares(op) {
                match (*left, *right) {
                    (Expr::Column(c), Expr::Literal(v)) => {
                        lemma_one_comparison(key, row.columns, c@, op, v);
                    },
                    (Expr::Literal(v), Expr::Column(c)) => {
                        lemma_one_comparison(key, row.columns, c@, flipped(op), v);
                    },
                    _ => {},
                }
            }
        },
        Expr::Between { expr, lo, hi, negated } => {
            if let Expr::Column(c) = *expr {
                if !negated {
                    if let Expr::Literal(v) = *lo {
                        lemma_one_comparison(key, row.columns, c@, BinaryOp::GtEq, v);
                    }
                    if let Expr::Literal(v) = *hi {
                        lemma_one_comparison(key, row.columns, c@, BinaryOp::LtEq, v);
                    }
                    lemma_all_of_both(
                        key,
                        row.columns,
                        literal_comparison(c@, BinaryOp::GtEq, *lo),
                        literal_comparison(c@, BinaryOp::LtEq, *hi),
                    );
                }
            }
        },
        _ => {},
    }
}

/// A filter whose rows an index may count without reading them says no more
/// than its comparisons do: a row that has no `NULL` in it and satisfies them is
/// one that the filter is true of.
pub proof fn countable_filters_are_their_comparisons<F: Fn(&Value) -> Vec<u8>>(
    key: F,
    row: RowFacts,
    e: Expr,
)
    requires
        conjunctive(e),
        forall|c: Seq<char>| !(#[trigger] (row.columns)(c) is Null),
    ensures
        filter_true(key, row, e) <==> satisfies_all(key, row.columns, comparisons(e)),
    decreases e,
{
    if let Expr::Binary { op, left, right } = e {
        if op == BinaryOp::And {
            countable_filters_are_their_comparisons(key, row, *left);
            countable_filters_are_their_comparisons(key, row, *right);
            lemma_all_of_both(key, row.columns, comparisons(*left), comparisons(*right));
        } else {
            match (*left, *right) {
                (Expr::Column(c), Expr::Literal(v)) => {
                    lemma_one_comparison(key, row.columns, c@, op, v);
                },
                (Expr::Literal(v), Expr::Column(c)) => {
                    lemma_one_comparison(key, row.columns, c@, flipped(op), v);
                },
                _ => {},
            }
        }
    }
}

/// Whether a row's column is another than a value, or `NULL`.
pub open spec fn differs<F: Fn(&Value) -> Vec<u8>>(
    key: F,
    row: RowFacts,
    n: (Seq<char>, Value),
) -> bool {
    (row.columns)(n.0) is Null || order_key(key, (row.columns)(n.0)) != order_key(key, n.1)
}

/// Whether every one of some conditions is true of a row.
pub open spec fn each_true<F: Fn(&Value) -> Vec<u8>>(key: F, row: RowFacts, es: Seq<Expr>) -> bool {
    forall|i: int| 0 <= i < es.len() ==> filter_true(key, row, #[trigger] es[i])
}

/// Whether a row differs from every one of some values.
pub open spec fn each_differs<F: Fn(&Value) -> Vec<u8>>(
    key: F,
    row: RowFacts,
    ns: Seq<(Seq<char>, Value)>,
) -> bool {
    forall|i: int| 0 <= i < ns.len() ==> differs(key, row, #[trigger] ns[i])
}

proof fn lemma_neq<F: Fn(&Value) -> Vec<u8>>(key: F, row: RowFacts, left: Expr, right: Expr)
    ensures
        null_safe_neq(left, right) matches Some(n) ==> (filter_true(key, row, left) || filter_true(
            key,
            row,
            right,
        ) <==> differs(key, row, n)),
{
    lemma_neq_true(key, row, left);
    lemma_neq_true(key, row, right);
    lemma_null_true(key, row, left);
    lemma_null_true(key, row, right);
}

proof fn lemma_neq_true<F: Fn(&Value) -> Vec<u8>>(key: F, row: RowFacts, e: Expr)
    ensures
        neq_of(e) matches Some((c, v)) ==> (filter_true(key, row, e) <==> !((row.columns)(c) is Null)
            && order_key(key, (row.columns)(c)) != order_key(key, v)),
{
}

proof fn lemma_null_true<F: Fn(&Value) -> Vec<u8>>(key: F, row: RowFacts, e: Expr)
    ensures
        is_null_of(e) matches Some(c) ==> (filter_true(key, row, e) <==> (row.columns)(c) is Null),
{
}

proof fn lemma_each<F: Fn(&Value) -> Vec<u8>>(
    key: F,
    row: RowFacts,
    a: Seq<Expr>,
    b: Seq<Expr>,
    m: Seq<(Seq<char>, Value)>,
    n: Seq<(Seq<char>, Value)>,
)
    ensures
        each_true(key, row, a + b) <==> each_true(key, row, a) && each_true(key, row, b),
        each_differs(key, row, m + n) <==> each_differs(key, row, m) && each_differs(key, row, n),
{
    let both = a + b;
    if each_true(key, row, both) {
        assert forall|k: int| 0 <= k < a.len() implies filter_true(key, row, #[trigger] a[k]) by {
            assert(both[k] == a[k]);
        }
        assert forall|k: int| 0 <= k < b.len() implies filter_true(key, row, #[trigger] b[k]) by {
            assert(both[a.len() + k] == b[k]);
        }
    }
    let all = m + n;
    if each_differs(key, row, all) {
        assert forall|k: int| 0 <= k < m.len() implies differs(key, row, #[trigger] m[k]) by {
            assert(all[k] == m[k]);
        }
        assert forall|k: int| 0 <= k < n.len() implies differs(key, row, #[trigger] n[k]) by {
            assert(all[m.len() + k] == n[k]);
        }
    }
}

/// A filter taken apart means the same: it is true of a row just where every
/// condition that was kept is, and the row differs from every value that was
/// set apart.
pub proof fn filters_taken_apart_mean_the_same<F: Fn(&Value) -> Vec<u8>>(
    key: F,
    row: RowFacts,
    e: Expr,
)
    ensures
        apart(e) matches Some((kept, ns)) ==> (filter_true(key, row, e) <==> each_true(
            key,
            row,
            kept,
        ) && each_differs(key, row, ns)),
    decreases e,
{
    match e {
        Expr::Binary { op, left, right } if op == BinaryOp::And => {
            filters_taken_apart_mean_the_same(key, row, *left);
            filters_taken_apart_mean_the_same(key, row, *right);
            if let (Some((ka, na)), Some((kb, nb))) = (apart(*left), apart(*right)) {
                lemma_each(key, row, ka, kb, na, nb);
            }
        },
        Expr::Binary { op, left, right } if op == BinaryOp::Or => {
            lemma_neq(key, row, *left, *right);
            if let Some((kept, ns)) = apart(e) {
                assert(ns.len() == 1 && kept.len() == 0);
                if each_differs(key, row, ns) {
                    assert(differs(key, row, ns[0]));
                }
            }
        },
        _ => {
            if let Some((kept, ns)) = apart(e) {
                assert(kept.len() == 1 && kept[0] == e);
                if each_true(key, row, kept) {
                    assert(filter_true(key, row, kept[0]));
                }
            }
        },
    }
}

/// An operator turned round says the same from the other side.
pub proof fn operators_turn_round(x: Seq<u8>, op: BinaryOp, y: Seq<u8>)
    ensures
        keys_compare(x, op, y) == keys_compare(y, flipped(op), x),
{
}

} // verus!
