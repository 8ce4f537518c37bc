//! What a filter pins: the comparisons it is certain of, and the equality and
//! range constraints they add up to for each column.

use vstd::prelude::*;

use crate::ast::BinaryOp;
use crate::ast::Expr;
use crate::bytes::bytes_below;
use crate::bytes::bytes_lt;
use crate::text::str_eq;
use crate::value::Value;

verus! {

/// A comparison of a column with a literal that is not `NULL`, the column on
/// the left.
pub struct Comparison<'a> {
    pub col: &'a String,
    pub op: BinaryOp,
    pub value: &'a Value,
}

pub struct ComparisonView {
    pub col: Seq<char>,
    pub op: BinaryOp,
    pub value: Value,
}

impl<'a> View for Comparison<'a> {
    type V = ComparisonView;

    open spec fn view(&self) -> ComparisonView {
        ComparisonView { col: self.col@, op: self.op, value: *self.value }
    }
}

/// A list of comparisons by what each says.
pub open spec fn comparison_views(cs: Seq<Comparison<'_>>) -> Seq<ComparisonView> {
    cs.map_values(|c: Comparison<'_>| c@)
}

/// Whether an operator compares.
pub open spec fn compares(op: BinaryOp) -> bool {
    op == BinaryOp::Eq || op == BinaryOp::Lt || op == BinaryOp::LtEq || op == BinaryOp::Gt || op
        == BinaryOp::GtEq
}

/// The operator with its sides exchanged: `5 < x` is `x > 5`.
pub open spec fn flipped(op: BinaryOp) -> BinaryOp {
    match op {
        BinaryOp::Lt => BinaryOp::Gt,
        BinaryOp::LtEq => BinaryOp::GtEq,
        BinaryOp::Gt => BinaryOp::Lt,
        BinaryOp::GtEq => BinaryOp::LtEq,
        other => other,
    }
}

/// The comparison that a literal side makes; none for `NULL` or another sort
/// of expression.
pub open spec fn literal_comparison(col: Seq<char>, op: BinaryOp, side: Expr) -> Seq<
    ComparisonView,
> {
    match side {
        Expr::Literal(v) => if v is Null {
            Seq::empty()
        } else {
            seq![ComparisonView { col, op, value: v }]
        },
        _ => Seq::empty(),
    }
}

/// The comparisons that hold of every row a filter lets through: those reached
/// through `AND`, and the two bounds of a `BETWEEN`.
pub open spec fn comparisons(e: Expr) -> Seq<ComparisonView>
    decreases e,
{
    match e {
        Expr::Binary { op, left, right } => if op == BinaryOp::And {
            comparisons(*left) + comparisons(*right)
        } else if compares(op) {
            match (*left, *right) {
                (Expr::Column(c), side) => literal_comparison(c@, op, side),
                (side, Expr::Column(c)) => literal_comparison(c@, flipped(op), side),
                _ => Seq::empty(),
            }
        } else {
            Seq::empty()
        },
        Expr::Between { expr, lo, hi, negated } => match *expr {
            Expr::Column(c) => if negated {
                Seq::empty()
            } else {
                literal_comparison(c@, BinaryOp::GtEq, *lo) + literal_comparison(
                    c@,
                    BinaryOp::LtEq,
                    *hi,
                )
            },
            _ => Seq::empty(),
        },
        _ => Seq::empty(),
    }
}

/// The comparisons of an optional filter.
pub open spec fn filter_comparisons(f: Option<Expr>) -> Seq<ComparisonView> {
    match f {
        Some(e) => comparisons(e),
        None => Seq::empty(),
    }
}

/// The operator with its sides exchanged.
pub fn flip_op(op: BinaryOp) -> (r: BinaryOp)
    ensures
        r == flipped(op),
{
    match op {
        BinaryOp::Lt => BinaryOp::Gt,
        BinaryOp::LtEq => BinaryOp::GtEq,
        BinaryOp::Gt => BinaryOp::Lt,
        BinaryOp::GtEq => BinaryOp::LtEq,
        other => other,
    }
}

fn push_comparison<'a>(out: &mut Vec<Comparison<'a>>, col: &'a String, op: BinaryOp, side: &'a Expr)
    ensures
        comparison_views(final(out)@) == comparison_views(old(out)@) + literal_comparison(
            col@,
            op,
            *side,
        ),
{
    if let Expr::Literal(v) = side {
        if !v.is_null() {
            out.push(Comparison { col, op, value: v });
            proof {
                assert(comparison_views(out@) =~= comparison_views(old(out)@) + seq![
                    ComparisonView { col: col@, op, value: *v },
                ]);
            }
            return;
        }
    }
    proof {
        assert(comparison_views(out@) + Seq::<ComparisonView>::empty() =~= comparison_views(out@));
    }
}

/// Collects the `column <op> literal` comparisons reachable through `AND`.
pub fn collect_comparisons<'a>(expr: &'a Expr, out: &mut Vec<Comparison<'a>>)
    ensures
        comparison_views(final(out)@) == comparison_views(old(out)@) + comparisons(*expr),
    decreases *expr,
{
    let ghost base = comparison_views(out@);
    proof {
        assert(base + Seq::<ComparisonView>::empty() =~= base);
    }
    match expr {
        Expr::Binary { op, left, right } => {
            if *op == BinaryOp::And {
                collect_comparisons(left, out);
                collect_comparisons(right, out);
                proof {
                    assert((base + comparisons(**left)) + comparisons(**right) =~= base + (
                    comparisons(**left) + comparisons(**right)));
                }
            } else if *op == BinaryOp::Eq || *op == BinaryOp::Lt || *op == BinaryOp::LtEq || *op
                == BinaryOp::Gt || *op == BinaryOp::GtEq {
                match &**left {
                    Expr::Column(c) => {
                        push_comparison(out, c, *op, right);
                    },
                    _ => {
                        if let Expr::Column(c) = &**right {
                            push_comparison(out, c, flip_op(*op), left);
                        }
                    },
                }
            }
        },
        Expr::Between { expr, lo, hi, negated } => {
            if let Expr::Column(c) = &**expr {
                if !*negated {
                    push_comparison(out, c, BinaryOp::GtEq, lo);
                    push_comparison(out, c, BinaryOp::LtEq, hi);
                    proof {
                        let a = literal_comparison(c@, BinaryOp::GtEq, **lo);
                        let b = literal_comparison(c@, BinaryOp::LtEq, **hi);
                        assert((base + a) + b =~= base + (a + b));
                    }
                }
            }
        },
        _ => {},
    }
}

/// What a filter says of one column.
pub struct ColConstraint<'a> {
    pub col: &'a String,
    pub eq: Option<&'a Value>,
    /// From `>` and `>=`.
    pub lo: Option<&'a Value>,
    /// From `<` and `<=`.
    pub hi: Option<&'a Value>,
}

pub struct ConstraintView {
    pub col: Seq<char>,
    pub eq: Option<Value>,
    pub lo: Option<Value>,
    pub hi: Option<Value>,
}

/// What an optional reference points to.
pub open spec fn pointee(v: Option<&Value>) -> Option<Value> {
    match v {
        Some(x) => Some(*x),
        None => None,
    }
}

impl<'a> View for ColConstraint<'a> {
    type V = ConstraintView;

    open spec fn view(&self) -> ConstraintView {
        ConstraintView {
            col: self.col@,
            eq: pointee(self.eq),
            lo: pointee(self.lo),
            hi: pointee(self.hi),
        }
    }
}

/// A list of constraints by what each says.
pub open spec fn constraint_views(cs: Seq<ColConstraint<'_>>) -> Seq<ConstraintView> {
    cs.map_values(|c: ColConstraint<'_>| c@)
}

/// The place of the constraint on `col`, or the length where there is none.
pub open spec fn place_of_col(cs: Seq<ConstraintView>, col: Seq<char>) -> int
    decreases cs.len(),
{
    if cs.len() == 0 {
        0
    } else if cs[0].col == col {
        0
    } else {
        1 + place_of_col(cs.drop_first(), col)
    }
}

/// The constraint on `col`.
pub open spec fn constraint_on(cs: Seq<ConstraintView>, col: Seq<char>) -> Option<ConstraintView> {
    if place_of_col(cs, col) < cs.len() {
        Some(cs[place_of_col(cs, col)])
    } else {
        None
    }
}

pub proof fn lemma_place_of_col(cs: Seq<ConstraintView>, col: Seq<char>)
    ensures
        0 <= place_of_col(cs, col) <= cs.len(),
        forall|i: int| 0 <= i < place_of_col(cs, col) ==> (#[trigger] cs[i]).col != col,
        place_of_col(cs, col) < cs.len() ==> cs[place_of_col(cs, col)].col == col,
    decreases cs.len(),
{
    if cs.len() > 0 && cs[0].col != col {
        let t = cs.drop_first();
        lemma_place_of_col(t, col);
        assert forall|i: int| 0 <= i < place_of_col(cs, col) implies (#[trigger] cs[i]).col
            != col by {
            if i > 0 {
                assert(cs[i] == t[i - 1]);
            }
        }
        if place_of_col(t, col) < t.len() {
            assert(cs[place_of_col(t, col) + 1] == t[place_of_col(t, col)]);
        }
    }
}

pub proof fn lemma_place_of_col_is(cs: Seq<ConstraintView>, col: Seq<char>, k: int)
    requires
        0 <= k <= cs.len(),
        forall|i: int| 0 <= i < k ==> (#[trigger] cs[i]).col != col,
        k < cs.len() ==> cs[k].col == col,
    ensures
        place_of_col(cs, col) == k,
{
    lemma_place_of_col(cs, col);
    let p = place_of_col(cs, col);
    if p < k {
        assert(cs[p].col != col);
    }
    if k < p {
        assert(cs[k].col != col);
    }
}

/// The order key that a key function gives a value.
pub open spec fn order_key<F: Fn(&Value) -> Vec<u8>>(key: F, v: Value) -> Seq<u8> {
    (choose|k: Vec<u8>| call_ensures(key, (&v,), k))@
}

/// Whether a key function can be called on every value and always gives a
/// value the same key.
pub open spec fn is_key_function<F: Fn(&Value) -> Vec<u8>>(key: F) -> bool {
    &&& forall|v: &Value| call_requires(key, (v,))
    &&& forall|v: &Value, a: Vec<u8>, b: Vec<u8>|
        call_ensures(key, (v,), a) && call_ensures(key, (v,), b) ==> a@ == b@
}

/// The tighter lower bound: the value with the larger order key.
pub open spec fn larger<F: Fn(&Value) -> Vec<u8>>(key: F, a: Value, b: Value) -> Value {
    if bytes_lt(order_key(key, a), order_key(key, b)) {
        b
    } else {
        a
    }
}

/// The tighter upper bound: the value with the smaller order key.
pub open spec fn smaller<F: Fn(&Value) -> Vec<u8>>(key: F, a: Value, b: Value) -> Value {
    if bytes_lt(order_key(key, b), order_key(key, a)) {
        b
    } else {
        a
    }
}

/// A column's constraint with one more comparison on it.
pub open spec fn tightened<F: Fn(&Value) -> Vec<u8>>(
    key: F,
    c: ConstraintView,
    op: BinaryOp,
    v: Value,
) -> ConstraintView {
    if op == BinaryOp::Eq {
        ConstraintView { eq: Some(v), ..c }
    } else if op == BinaryOp::Gt || op == BinaryOp::GtEq {
        ConstraintView {
            lo: Some(
                match c.lo {
                    Some(cur) => larger(key, cur, v),
                    None => v,
                },
            ),
            ..c
        }
    } else if op == BinaryOp::Lt || op == BinaryOp::LtEq {
        ConstraintView {
            hi: Some(
                match c.hi {
                    Some(cur) => smaller(key, cur, v),
                    None => v,
                },
            ),
            ..c
        }
    } else {
        c
    }
}

/// No constraint on a column yet.
pub open spec fn unconstrained(col: Seq<char>) -> ConstraintView {
    ConstraintView { col, eq: None, lo: None, hi: None }
}

/// The constraints with one more comparison; a column met first goes last.
pub open spec fn with_comparison<F: Fn(&Value) -> Vec<u8>>(
    key: F,
    cs: Seq<ConstraintView>,
    m: ComparisonView,
) -> Seq<ConstraintView> {
    let p = place_of_col(cs, m.col);
    if p < cs.len() {
        cs.update(p, tightened(key, cs[p], m.op, m.value))
    } else {
        cs.push(tightened(key, unconstrained(m.col), m.op, m.value))
    }
}

/// The constraints that a run of comparisons adds up to.
pub open spec fn constraints<F: Fn(&Value) -> Vec<u8>>(key: F, ms: Seq<ComparisonView>) -> Seq<
    ConstraintView,
>
    decreases ms.len(),
{
    if ms.len() == 0 {
        Seq::empty()
    } else {
        with_comparison(key, constraints(key, ms.drop_last()), ms.last())
    }
}

/// The value with the larger order key, the first on a tie.
fn value_max<'a, F: Fn(&Value) -> Vec<u8>>(key: &F, a: &'a Value, b: &'a Value) -> (r: &'a Value)
    requires
        is_key_function(*key),
    ensures
        *r == larger(*key, *a, *b),
{
    let ka = key(a);
    let kb = key(b);
    proof {
        assert(call_ensures(*key, (a,), ka));
        assert(call_ensures(*key, (b,), kb));
    }
    if bytes_below(ka.as_slice(), kb.as_slice()) {
        b
    } else {
        a
    }
}

/// The value with the smaller order key, the first on a tie.
fn value_min<'a, F: Fn(&Value) -> Vec<u8>>(key: &F, a: &'a Value, b: &'a Value) -> (r: &'a Value)
    requires
        is_key_function(*key),
    ensures
        *r == smaller(*key, *a, *b),
{
    let ka = key(a);
    let kb = key(b);
    proof {
        assert(call_ensures(*key, (a,), ka));
        assert(call_ensures(*key, (b,), kb));
    }
    if bytes_below(kb.as_slice(), ka.as_slice()) {
        b
    } else {
        a
    }
}

/// The place of the constraint on `col`, or the number of constraints.
pub fn find_col(cs: &Vec<ColConstraint<'_>>, col: &str) -> (r: usize)
    ensures
        r == place_of_col(constraint_views(cs@), col@),
        r <= cs@.len(),
{
    let mut i: usize = 0;
    let ghost vs = constraint_views(cs@);
    while i < cs.len()
        invariant
            i <= cs@.len(),
            vs == constraint_views(cs@),
            forall|k: int| 0 <= k < i ==> (#[trigger] vs[k]).col != col@,
        decreases cs@.len() - i,
    {
        if str_eq(cs[i].col.as_str(), col) {
            proof {
                assert(vs[i as int].col == col@);
                lemma_place_of_col_is(vs, col@, i as int);
            }
            return i;
        }
        i = i + 1;
    }
    proof {
        lemma_place_of_col_is(vs, col@, i as int);
    }
    i
}

/// Per-column constraints of a run of comparisons. `key` gives the order key
/// that bounds are compared by.
pub fn column_constraints<'a, F: Fn(&Value) -> Vec<u8>>(
    ms: &Vec<Comparison<'a>>,
    key: &F,
) -> (r: Vec<ColConstraint<'a>>)
    requires
        is_key_function(*key),
    ensures
        constraint_views(r@) == constraints(*key, comparison_views(ms@)),
{
    let ghost all = comparison_views(ms@);
    let mut out: Vec<ColConstraint<'a>> = Vec::new();
    let mut i: usize = 0;
    proof {
        assert(all.take(0) =~= Seq::<ComparisonView>::empty());
        assert(constraint_views(out@) =~= Seq::<ConstraintView>::empty());
    }
    while i < ms.len()
        invariant
            i <= ms@.len(),
            is_key_function(*key),
            all == comparison_views(ms@),
            constraint_views(out@) == constraints(*key, all.take(i as int)),
        decreases ms@.len() - i,
    {
        let m = &ms[i];
        let ghost before = constraint_views(out@);
        proof {
            assert(all.take(i + 1).drop_last() =~= all.take(i as int));
            assert(all.take(i + 1).last() == m@);
        }
        let p: usize = find_col(&out, m.col.as_str());
        let known: bool = p < out.len();
        let mut c = if known {
            out.remove(p)
        } else {
            ColConstraint { col: m.col, eq: None, lo: None, hi: None }
        };
        let ghost start = c@;
        proof {
            if known {
                lemma_place_of_col(before, m.col@);
                assert(before[p as int] == start);
            } else {
                assert(start == unconstrained(m.col@));
            }
        }
        match m.op {
            BinaryOp::Eq => {
                c.eq = Some(m.value);
            },
            BinaryOp::Gt | BinaryOp::GtEq => {
                c.lo = Some(
                    match c.lo {
                        Some(cur) => value_max(key, cur, m.value),
                        None => m.value,
                    },
                );
            },
            BinaryOp::Lt | BinaryOp::LtEq => {
                c.hi = Some(
                    match c.hi {
                        Some(cur) => value_min(key, cur, m.value),
                        None => m.value,
                    },
                );
            },
            _ => {},
        }
        proof {
            assert(c@ == tightened(*key, start, m.op, *m.value));
        }
        let ghost cv = c@;
        if known {
            out.insert(p, c);
            proof {
                assert(constraint_views(out@) =~= before.update(p as int, cv));
            }
        } else {
            out.push(c);
            proof {
                assert(constraint_views(out@) =~= before.push(cv));
            }
        }
        i = i + 1;
    }
    proof {
        assert(all.take(all.len() as int) =~= all);
    }
    out
}

/// The constraints of an optional filter.
pub fn filter_constraints<'a, F: Fn(&Value) -> Vec<u8>>(filter: &'a Option<Expr>, key: &F) -> (r:
    Vec<ColConstraint<'a>>)
    requires
        is_key_function(*key),
    ensures
        constraint_views(r@) == constraints(*key, filter_comparisons(*filter)),
{
    let mut ms: Vec<Comparison<'a>> = Vec::new();
    proof {
        assert(comparison_views(ms@) =~= Seq::<ComparisonView>::empty());
    }
    if let Some(e) = filter {
        collect_comparisons(e, &mut ms);
        proof {
            assert(comparison_views(ms@) =~= comparisons(*e));
        }
    }
    column_constraints(&ms, key)
}

/// Whether a literal can probe an index with byte-exact fidelity: filter
/// evaluation coerces numbers of different types, index keys do not.
pub open spec fn count_safe(v: Value) -> bool {
    v is Bool || v is String || v is Bytes || v is Uuid
}

/// Whether a literal can probe an index with byte-exact fidelity.
pub fn count_safe_literal(v: &Value) -> (r: bool)
    ensures
        r == count_safe(*v),
{
    match v {
        Value::Bool(_) => true,
        Value::String(_) => true,
        Value::Bytes(_) => true,
        Value::Uuid(_) => true,
        _ => false,
    }
}

/// Whether an expression is a conjunction of count-safe comparisons of a
/// column with a literal, so that its comparisons are all it says.
pub open spec fn conjunctive(e: Expr) -> bool
    decreases e,
{
    match e {
        Expr::Binary { op, left, right } => if op == BinaryOp::And {
            conjunctive(*left) && conjunctive(*right)
        } else if compares(op) {
            match (*left, *right) {
                (Expr::Column(_), Expr::Literal(v)) => count_safe(v),
                (Expr::Literal(v), Expr::Column(_)) => count_safe(v),
                _ => false,
            }
        } else {
            false
        },
        _ => false,
    }
}

/// Whether `expr` is a pure conjunction of count-safe comparisons.
pub fn filter_is_conjunctive(expr: &Expr) -> (r: bool)
    ensures
        r == conjunctive(*expr),
    decreases *expr,
{
    match expr {
        Expr::Binary { op, left, right } => {
            if *op == BinaryOp::And {
                filter_is_conjunctive(left) && filter_is_conjunctive(right)
            } else if *op == BinaryOp::Eq || *op == BinaryOp::Lt || *op == BinaryOp::LtEq || *op
                == BinaryOp::Gt || *op == BinaryOp::GtEq {
                match (&**left, &**right) {
                    (Expr::Column(_), Expr::Literal(v)) => count_safe_literal(v),
                    (Expr::Literal(v), Expr::Column(_)) => count_safe_literal(v),
                    _ => false,
                }
            } else {
                false
            }
        },
        _ => false,
    }
}

/// A column compared for inequality with a count-safe literal.
pub open spec fn neq_of(e: Expr) -> Option<(Seq<char>, Value)> {
    match e {
        Expr::Binary { op, left, right } => if op == BinaryOp::NotEq {
            match (*left, *right) {
                (Expr::Column(c), Expr::Literal(v)) => if count_safe(v) {
                    Some((c@, v))
                } else {
                    None
                },
                (Expr::Literal(v), Expr::Column(c)) => if count_safe(v) {
                    Some((c@, v))
                } else {
                    None
                },
                _ => None,
            }
        } else {
            None
        },
        _ => None,
    }
}

/// The column of a `col IS NULL`.
pub open spec fn is_null_of(e: Expr) -> Option<Seq<char>> {
    match e {
        Expr::IsNull { expr, negated } => if negated {
            None
        } else {
            match *expr {
                Expr::Column(c) => Some(c@),
                _ => None,
            }
        },
        _ => None,
    }
}

/// The column and literal of a null-safe `col != lit OR col IS NULL`, its
/// sides in either order.
pub open spec fn null_safe_neq(left: Expr, right: Expr) -> Option<(Seq<char>, Value)> {
    match (neq_of(left), is_null_of(right)) {
        (Some((c, v)), Some(n)) => if c == n {
            Some((c, v))
        } else {
            flipped_null_safe_neq(left, right)
        },
        _ => flipped_null_safe_neq(left, right),
    }
}

/// The same with the `IS NULL` side first.
pub open spec fn flipped_null_safe_neq(left: Expr, right: Expr) -> Option<(Seq<char>, Value)> {
    match (is_null_of(left), neq_of(right)) {
        (Some(n), Some((c, v))) => if c == n {
            Some((c, v))
        } else {
            None
        },
        _ => None,
    }
}

/// The conjuncts of a filter taken apart: those kept, and the null-safe
/// negated equalities. Nothing where another `OR` is among them.
pub open spec fn apart(e: Expr) -> Option<(Seq<Expr>, Seq<(Seq<char>, Value)>)>
    decreases e,
{
    match e {
        Expr::Binary { op, left, right } => if op == BinaryOp::And {
            match (apart(*left), apart(*right)) {
                (Some((ka, na)), Some((kb, nb))) => Some((ka + kb, na + nb)),
                _ => None,
            }
        } else if op == BinaryOp::Or {
            match null_safe_neq(*left, *right) {
                Some(cv) => Some((Seq::empty(), seq![cv])),
                None => None,
            }
        } else {
            Some((seq![e], Seq::empty()))
        },
        _ => Some((seq![e], Seq::empty())),
    }
}

/// A conjunction with exactly one null-safe negated equality, split.
pub struct NegatedEq<'a> {
    /// The other conjuncts, in order.
    pub rest: Vec<&'a Expr>,
    pub col: &'a String,
    pub lit: &'a Value,
}

/// What a list of references points to.
pub open spec fn pointees(es: Seq<&Expr>) -> Seq<Expr> {
    es.map_values(|e: &Expr| *e)
}

/// What a list of columns and literals holds.
pub open spec fn pair_views(ns: Seq<(&String, &Value)>) -> Seq<(Seq<char>, Value)> {
    ns.map_values(|n: (&String, &Value)| (n.0@, *n.1))
}

fn as_neq<'a>(e: &'a Expr) -> (r: Option<(&'a String, &'a Value)>)
    ensures
        r is Some <==> neq_of(*e) is Some,
        r matches Some((c, v)) ==> neq_of(*e) == Some((c@, *v)),
{
    if let Expr::Binary { op, left, right } = e {
        if *op == BinaryOp::NotEq {
            match (&**left, &**right) {
                (Expr::Column(c), Expr::Literal(v)) => {
                    if count_safe_literal(v) {
                        return Some((c, v));
                    }
                },
                (Expr::Literal(v), Expr::Column(c)) => {
                    if count_safe_literal(v) {
                        return Some((c, v));
                    }
                },
                _ => {},
            }
        }
    }
    None
}

fn as_is_null<'a>(e: &'a Expr) -> (r: Option<&'a String>)
    ensures
        r is Some <==> is_null_of(*e) is Some,
        r matches Some(c) ==> is_null_of(*e) == Some(c@),
{
    if let Expr::IsNull { expr, negated } = e {
        if !*negated {
            if let Expr::Column(c) = &**expr {
                return Some(c);
            }
        }
    }
    None
}

fn as_null_safe_neq<'a>(left: &'a Expr, right: &'a Expr) -> (r: Option<(&'a String, &'a Value)>)
    ensures
        r is Some <==> null_safe_neq(*left, *right) is Some,
        r matches Some((c, v)) ==> null_safe_neq(*left, *right) == Some((c@, *v)),
{
    if let (Some((c, v)), Some(n)) = (as_neq(left), as_is_null(right)) {
        if *c == *n {
            return Some((c, v));
        }
    }
    if let (Some(n), Some((c, v))) = (as_is_null(left), as_neq(right)) {
        if *c == *n {
            return Some((c, v));
        }
    }
    None
}

fn collect_apart<'a>(
    e: &'a Expr,
    keep: &mut Vec<&'a Expr>,
    neg: &mut Vec<(&'a String, &'a Value)>,
) -> (r: bool)
    ensures
        r == (apart(*e) is Some),
        r ==> pointees(final(keep)@) == pointees(old(keep)@) + (apart(*e)->0).0 && pair_views(
            final(neg)@,
        ) == pair_views(old(neg)@) + (apart(*e)->0).1,
    decreases *e,
{
    let ghost k0 = pointees(keep@);
    let ghost n0 = pair_views(neg@);
    if let Expr::Binary { op, left, right } = e {
        if *op == BinaryOp::And {
            if !collect_apart(left, keep, neg) {
                return false;
            }
            if !collect_apart(right, keep, neg) {
                return false;
            }
            proof {
                let a = apart(**left)->0;
                let b = apart(**right)->0;
                assert((k0 + a.0) + b.0 =~= k0 + (a.0 + b.0));
                assert((n0 + a.1) + b.1 =~= n0 + (a.1 + b.1));
            }
            return true;
        }
        if *op == BinaryOp::Or {
            return match as_null_safe_neq(left, right) {
                Some(cv) => {
                    neg.push(cv);
                    proof {
                        assert(pair_views(neg@) =~= n0 + seq![(cv.0@, *cv.1)]);
                        assert(k0 + Seq::<Expr>::empty() =~= k0);
                    }
                    true
                },
                None => false,
            };
        }
    }
    keep.push(e);
    proof {
        assert(pointees(keep@) =~= k0 + seq![*e]);
        assert(n0 + Seq::<(Seq<char>, Value)>::empty() =~= n0);
    }
    true
}

/// Splits a conjunction that holds exactly one null-safe negated equality. Only
/// that form counts everything except `col = lit`, absent and null included.
pub fn split_one_negated_eq<'a>(expr: &'a Expr) -> (r: Option<NegatedEq<'a>>)
    ensures
        r is Some <==> (apart(*expr) matches Some((_, neg)) && neg.len() == 1),
        r matches Some(n) ==> pointees(n.rest@) == (apart(*expr)->0).0 && (n.col@, *n.lit) == (apart(
            *expr,
        )->0).1[0],
{
    let mut keep: Vec<&'a Expr> = Vec::new();
    let mut neg: Vec<(&'a String, &'a Value)> = Vec::new();
    proof {
        assert(pointees(keep@) =~= Seq::<Expr>::empty());
        assert(pair_views(neg@) =~= Seq::<(Seq<char>, Value)>::empty());
    }
    if !collect_apart(expr, &mut keep, &mut neg) {
        return None;
    }
    proof {
        let a = apart(*expr)->0;
        assert(Seq::<Expr>::empty() + a.0 =~= a.0);
        assert(Seq::<(Seq<char>, Value)>::empty() + a.1 =~= a.1);
        assert(pair_views(neg@).len() == neg@.len());
    }
    if neg.len() != 1 {
        return None;
    }
    let (col, lit) = neg[0];
    proof {
        assert(pair_views(neg@)[0] == (col@, *lit));
    }
    Some(NegatedEq { rest: keep, col, lit })
}

/// Whether a row's values satisfy a comparison, by their order keys.
pub open spec fn satisfies<F: Fn(&Value) -> Vec<u8>>(
    key: F,
    row: spec_fn(Seq<char>) -> Value,
    m: ComparisonView,
) -> bool {
    let x = order_key(key, row(m.col));
    let v = order_key(key, m.value);
    match m.op {
        BinaryOp::Eq => x == v,
        BinaryOp::Lt => bytes_lt(x, v),
        BinaryOp::LtEq => bytes_lt(x, v) || x == v,
        BinaryOp::Gt => bytes_lt(v, x),
        BinaryOp::GtEq => bytes_lt(v, x) || x == v,
        _ => true,
    }
}

/// Whether a row's values satisfy every comparison of a list.
pub open spec fn satisfies_all<F: Fn(&Value) -> Vec<u8>>(
    key: F,
    row: spec_fn(Seq<char>) -> Value,
    ms: Seq<ComparisonView>,
) -> bool {
    forall|k: int| 0 <= k < ms.len() ==> satisfies(key, row, #[trigger] ms[k])
}

/// Whether a row's value lies within the constraint on its column.
pub open spec fn within<F: Fn(&Value) -> Vec<u8>>(
    key: F,
    row: spec_fn(Seq<char>) -> Value,
    c: ConstraintView,
) -> bool {
    let x = order_key(key, row(c.col));
    &&& c.eq matches Some(v) ==> x == order_key(key, v)
    &&& c.lo matches Some(lo) ==> !bytes_lt(x, order_key(key, lo))
    &&& c.hi matches Some(hi) ==> !bytes_lt(order_key(key, hi), x)
}

/// The bounds never lose a match: a row whose order keys satisfy every
/// comparison lies within the constraints they add up to.
pub proof fn constraints_lose_no_match<F: Fn(&Value) -> Vec<u8>>(
    key: F,
    row: spec_fn(Seq<char>) -> Value,
    ms: Seq<ComparisonView>,
    i: int,
)
    requires
        satisfies_all(key, row, ms),
        0 <= i < constraints(key, ms).len(),
    ensures
        within(key, row, constraints(key, ms)[i]),
    decreases ms.len(),
{
    if ms.len() > 0 {
        let init = ms.drop_last();
        let m = ms.last();
        let cs = constraints(key, init);
        assert forall|k: int| 0 <= k < init.len() implies satisfies(
            key,
            row,
            #[trigger] init[k],
        ) by {
            assert(ms[k] == init[k]);
        }
        lemma_place_of_col(cs, m.col);
        if i < cs.len() {
            constraints_lose_no_match(key, row, init, i);
        }
        assert(ms[ms.len() - 1] == m);
        let x = order_key(key, row(m.col));
        let v = order_key(key, m.value);
        crate::bytes::lemma_bytes_lt_irrefl(x);
        if bytes_lt(x, v) && bytes_lt(v, x) {
            crate::bytes::lemma_bytes_lt_trans(x, v, x);
        }
    }
}

/// Whether an operator bounds its column from below.
pub open spec fn is_lower(op: BinaryOp) -> bool {
    op == BinaryOp::Gt || op == BinaryOp::GtEq
}

/// Whether an operator bounds its column from above.
pub open spec fn is_upper(op: BinaryOp) -> bool {
    op == BinaryOp::Lt || op == BinaryOp::LtEq
}

/// What the constraint on a column says of the comparisons behind it: its
/// equality, its lower and its upper bound are values compared with, there is
/// one wherever a comparison asks for it, and the bounds are the tightest.
pub open spec fn sums_up<F: Fn(&Value) -> Vec<u8>>(
    key: F,
    ms: Seq<ComparisonView>,
    c: ConstraintView,
) -> bool {
    &&& c.eq matches Some(v) ==> exists|k: int|
        0 <= k < ms.len() && (#[trigger] ms[k]).col == c.col && ms[k].op == BinaryOp::Eq
            && ms[k].value == v
    &&& c.lo matches Some(v) ==> exists|k: int|
        0 <= k < ms.len() && (#[trigger] ms[k]).col == c.col && is_lower(ms[k].op) && ms[k].value
            == v
    &&& c.hi matches Some(v) ==> exists|k: int|
        0 <= k < ms.len() && (#[trigger] ms[k]).col == c.col && is_upper(ms[k].op) && ms[k].value
            == v
    &&& forall|k: int|
        0 <= k < ms.len() && (#[trigger] ms[k]).col == c.col ==> {
            &&& ms[k].op == BinaryOp::Eq ==> c.eq is Some
            &&& is_lower(ms[k].op) ==> (c.lo matches Some(v) && !bytes_lt(
                order_key(key, v),
                order_key(key, ms[k].value),
            ))
            &&& is_upper(ms[k].op) ==> (c.hi matches Some(v) && !bytes_lt(
                order_key(key, ms[k].value),
                order_key(key, v),
            ))
        }
}

proof fn lemma_tightened<F: Fn(&Value) -> Vec<u8>>(
    key: F,
    init: Seq<ComparisonView>,
    c: ConstraintView,
    m: ComparisonView,
)
    requires
        sums_up(key, init, c),
        m.col == c.col,
    ensures
        sums_up(key, init.push(m), tightened(key, c, m.op, m.value)),
{
    let ms = init.push(m);
    let t = tightened(key, c, m.op, m.value);
    let n = init.len() as int;
    assert(ms[n] == m);
    let v = order_key(key, m.value);
    crate::bytes::lemma_bytes_lt_irrefl(v);
    assert(t.col == c.col);
    if t.eq is Some {
        if m.op != BinaryOp::Eq {
            let w = choose|k: int|
                0 <= k < init.len() && (#[trigger] init[k]).col == c.col && init[k].op
                    == BinaryOp::Eq && init[k].value == c.eq->0;
            assert(ms[w] == init[w]);
        }
    }
    if let Some(x) = t.lo {
        if x != m.value || !is_lower(m.op) {
            let w = choose|k: int|
                0 <= k < init.len() && (#[trigger] init[k]).col == c.col && is_lower(init[k].op)
                    && init[k].value == c.lo->0;
            assert(ms[w] == init[w]);
        }
    }
    if let Some(x) = t.hi {
        if x != m.value || !is_upper(m.op) {
            let w = choose|k: int|
                0 <= k < init.len() && (#[trigger] init[k]).col == c.col && is_upper(init[k].op)
                    && init[k].value == c.hi->0;
            assert(ms[w] == init[w]);
        }
    }
    assert forall|k: int| 0 <= k < ms.len() && (#[trigger] ms[k]).col == t.col implies {
        &&& ms[k].op == BinaryOp::Eq ==> t.eq is Some
        &&& is_lower(ms[k].op) ==> (t.lo matches Some(x) && !bytes_lt(
            order_key(key, x),
            order_key(key, ms[k].value),
        ))
        &&& is_upper(ms[k].op) ==> (t.hi matches Some(x) && !bytes_lt(
            order_key(key, ms[k].value),
            order_key(key, x),
        ))
    } by {
        let u = order_key(key, ms[k].value);
        if k < n {
            assert(ms[k] == init[k]);
            if is_lower(ms[k].op) {
                let a = order_key(key, c.lo->0);
                if bytes_lt(a, v) && bytes_lt(v, u) {
                    crate::bytes::lemma_bytes_lt_trans(a, v, u);
                }
            }
            if is_upper(ms[k].op) {
                let a = order_key(key, c.hi->0);
                if bytes_lt(v, a) && bytes_lt(u, v) {
                    crate::bytes::lemma_bytes_lt_trans(u, v, a);
                }
            }
        } else {
            if c.lo is Some {
                crate::bytes::lemma_bytes_lt_irrefl(order_key(key, c.lo->0));
            }
            if c.hi is Some {
                crate::bytes::lemma_bytes_lt_irrefl(order_key(key, c.hi->0));
            }
        }
    }
}

proof fn lemma_other_column<F: Fn(&Value) -> Vec<u8>>(
    key: F,
    init: Seq<ComparisonView>,
    c: ConstraintView,
    m: ComparisonView,
)
    requires
        sums_up(key, init, c),
        m.col != c.col,
    ensures
        sums_up(key, init.push(m), c),
{
    let ms = init.push(m);
    if c.eq is Some {
        let w = choose|k: int|
            0 <= k < init.len() && (#[trigger] init[k]).col == c.col && init[k].op == BinaryOp::Eq
                && init[k].value == c.eq->0;
        assert(ms[w] == init[w]);
    }
    if c.lo is Some {
        let w = choose|k: int|
            0 <= k < init.len() && (#[trigger] init[k]).col == c.col && is_lower(init[k].op)
                && init[k].value == c.lo->0;
        assert(ms[w] == init[w]);
    }
    if c.hi is Some {
        let w = choose|k: int|
            0 <= k < init.len() && (#[trigger] init[k]).col == c.col && is_upper(init[k].op)
                && init[k].value == c.hi->0;
        assert(ms[w] == init[w]);
    }
    assert forall|k: int| 0 <= k < ms.len() && (#[trigger] ms[k]).col == c.col implies ms[k]
        == init[k] && k < init.len() by {}
}

/// The constraints sum up the comparisons: one for each column compared, with
/// the values that bound it.
pub proof fn lemma_constraints<F: Fn(&Value) -> Vec<u8>>(key: F, ms: Seq<ComparisonView>)
    ensures
        forall|i: int|
            0 <= i < constraints(key, ms).len() ==> sums_up(
                key,
                ms,
                #[trigger] constraints(key, ms)[i],
            ),
        forall|i: int, j: int|
            0 <= i < j < constraints(key, ms).len() ==> (#[trigger] constraints(key, ms)[i]).col
                != (#[trigger] constraints(key, ms)[j]).col,
        forall|k: int|
            0 <= k < ms.len() ==> constraint_on(
                constraints(key, ms),
                (#[trigger] ms[k]).col,
            ) is Some,
    decreases ms.len(),
{
    if ms.len() > 0 {
        let init = ms.drop_last();
        let m = ms.last();
        assert(init.push(m) =~= ms);
        lemma_constraints(key, init);
        let before = constraints(key, init);
        let cs = constraints(key, ms);
        let p = place_of_col(before, m.col);
        lemma_place_of_col(before, m.col);
        if p == before.len() {
            let fresh = unconstrained(m.col);
            assert forall|k: int| 0 <= k < init.len() implies (#[trigger] init[k]).col
                != m.col by {
                assert(constraint_on(before, init[k].col) is Some);
            }
            assert(sums_up(key, init, fresh));
            lemma_tightened(key, init, fresh, m);
        } else {
            lemma_tightened(key, init, before[p], m);
        }
        assert forall|i: int| 0 <= i < cs.len() implies sums_up(key, ms, #[trigger] cs[i]) by {
            if i < before.len() && i != p {
                assert(cs[i] == before[i]);
                assert(before[i].col != m.col);
                lemma_other_column(key, init, before[i], m);
            }
        }
        assert forall|i: int, j: int| 0 <= i < j < cs.len() implies (#[trigger] cs[i]).col != (
        #[trigger] cs[j]).col by {
            if j < before.len() {
                assert(before[i].col != before[j].col);
            }
        }
        assert forall|k: int| 0 <= k < ms.len() implies constraint_on(
            cs,
            (#[trigger] ms[k]).col,
        ) is Some by {
            lemma_place_of_col(cs, ms[k].col);
            if k < init.len() {
                assert(constraint_on(before, init[k].col) is Some);
                let q = place_of_col(before, init[k].col);
                lemma_place_of_col(before, init[k].col);
                assert(cs[q].col == ms[k].col);
            } else {
                assert(cs[p].col == m.col);
            }
        }
    }
}

/// Whether the equalities on each column all ask for the same value.
pub open spec fn equalities_agree<F: Fn(&Value) -> Vec<u8>>(
    key: F,
    ms: Seq<ComparisonView>,
) -> bool {
    forall|i: int, j: int|
        0 <= i < ms.len() && 0 <= j < ms.len() && (#[trigger] ms[i]).op == BinaryOp::Eq && (
        #[trigger] ms[j]).op == BinaryOp::Eq && ms[i].col == ms[j].col ==> order_key(
            key,
            ms[i].value,
        ) == order_key(key, ms[j].value)
}

/// Whether the equalities on each column all ask for the same value.
pub fn check_equalities<F: Fn(&Value) -> Vec<u8>>(ms: &Vec<Comparison<'_>>, key: &F) -> (r: bool)
    requires
        is_key_function(*key),
    ensures
        r == equalities_agree(*key, comparison_views(ms@)),
{
    let ghost vs = comparison_views(ms@);
    let mut i: usize = 0;
    while i < ms.len()
        invariant
            i <= ms@.len(),
            is_key_function(*key),
            vs == comparison_views(ms@),
            forall|a: int, b: int|
                0 <= a < i && 0 <= b < vs.len() && (#[trigger] vs[a]).op == BinaryOp::Eq && (
                #[trigger] vs[b]).op == BinaryOp::Eq && vs[a].col == vs[b].col ==> order_key(
                    *key,
                    vs[a].value,
                ) == order_key(*key, vs[b].value),
        decreases ms@.len() - i,
    {
        proof {
            assert(vs[i as int] == ms@[i as int]@);
        }
        if ms[i].op == BinaryOp::Eq {
            let mine = key(ms[i].value);
            let mut j: usize = 0;
            while j < ms.len()
                invariant
                    i < ms@.len(),
                    j <= ms@.len(),
                    is_key_function(*key),
                    vs == comparison_views(ms@),
                    vs[i as int] == ms@[i as int]@,
                    ms@[i as int].op == BinaryOp::Eq,
                    mine@ == order_key(*key, vs[i as int].value),
                    forall|b: int|
                        0 <= b < j && (#[trigger] vs[b]).op == BinaryOp::Eq && vs[i as int].col
                            == vs[b].col ==> order_key(*key, vs[i as int].value) == order_key(
                            *key,
                            vs[b].value,
                        ),
                decreases ms@.len() - j,
            {
                proof {
                    assert(vs[j as int] == ms@[j as int]@);
                }
                if ms[j].op == BinaryOp::Eq && str_eq(ms[i].col.as_str(), ms[j].col.as_str()) {
                    let other = key(ms[j].value);
                    if !crate::bytes::same_bytes(mine.as_slice(), other.as_slice()) {
                        return false;
                    }
                }
                j = j + 1;
            }
        }
        i = i + 1;
    }
    true
}

/// Whether a column is compared with a value by one operator.
pub open spec fn compared_by<F: Fn(&Value) -> Vec<u8>>(
    key: F,
    ms: Seq<ComparisonView>,
    col: Seq<char>,
    op: BinaryOp,
    v: Value,
) -> bool {
    exists|k: int|
        0 <= k < ms.len() && (#[trigger] ms[k]).col == col && ms[k].op == op && order_key(
            key,
            ms[k].value,
        ) == order_key(key, v)
}

/// Whether a column is compared with a value by one operator.
pub fn is_compared_by<F: Fn(&Value) -> Vec<u8>>(
    ms: &Vec<Comparison<'_>>,
    col: &str,
    op: BinaryOp,
    v: &Value,
    key: &F,
) -> (r: bool)
    requires
        is_key_function(*key),
    ensures
        r == compared_by(*key, comparison_views(ms@), col@, op, *v),
{
    let ghost vs = comparison_views(ms@);
    let mine = key(v);
    let mut i: usize = 0;
    while i < ms.len()
        invariant
            i <= ms@.len(),
            is_key_function(*key),
            vs == comparison_views(ms@),
            mine@ == order_key(*key, *v),
            forall|k: int|
                0 <= k < i ==> !((#[trigger] vs[k]).col == col@ && vs[k].op == op && order_key(
                    *key,
                    vs[k].value,
                ) == order_key(*key, *v)),
        decreases ms@.len() - i,
    {
        proof {
            assert(vs[i as int] == ms@[i as int]@);
        }
        if ms[i].op == op && str_eq(ms[i].col.as_str(), col) {
            let other = key(ms[i].value);
            if crate::bytes::same_bytes(other.as_slice(), mine.as_slice()) {
                return true;
            }
        }
        i = i + 1;
    }
    false
}

} // verus!
