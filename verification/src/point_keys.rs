//! Point reads: the value tuples that a filter pins a key to, the entries that
//! a row has in an index, and keys as ordered sets.

use vstd::prelude::*;

use crate::ast::BinaryOp;
use crate::ast::Expr;
use crate::bytes::bytes_lt;
use crate::bytes::copy_bytes;
use crate::catalog::IndexDef;
use crate::constraints::order_key;
use crate::gidx::GIDX_PROBE_RANGES;
use crate::plan::copy_tuple;
use crate::plan::entry_keys;
use crate::plan::index_key_names;
use crate::plan::key_names;
use crate::plan::keys_of;
use crate::plan::multi_from;
use crate::plan::multi_pos;
use crate::plan::tuple;
use crate::sorted_map::holds_key;
use crate::sorted_map::lemma_entry_at;
use crate::sorted_map::place_of;
use crate::sorted_map::SortKey;
use crate::sorted_map::SortedMap;
use crate::text::str_eq;
use crate::text::views;
use crate::value::Value;

verus! {

/// The largest number of candidate keys that a filter is expanded to.
pub const PK_IN_MAX_KEYS: usize = 1000;

/// A list of values without its `NULL`s.
pub open spec fn not_null(vs: Seq<Value>) -> Seq<Value> {
    vs.filter(|v: Value| !(v is Null))
}

/// The values that an `IN` list names, `NULL`s left out and a literal array
/// taken apart; nothing where an element is not a literal.
pub open spec fn in_values(list: Seq<Expr>) -> Option<Seq<Value>>
    decreases list.len(),
{
    if list.len() == 0 {
        Some(Seq::empty())
    } else {
        match (in_values(list.drop_last()), list.last()) {
            (Some(vs), Expr::Literal(v)) => match v {
                Value::Array(elems) => Some(vs + not_null(elems@)),
                Value::Null => Some(vs),
                _ => Some(vs.push(v)),
            },
            _ => None,
        }
    }
}

/// The smaller of two candidate sets, the first on a tie.
pub open spec fn considered(best: Option<Seq<Value>>, vals: Seq<Value>) -> Option<Seq<Value>> {
    match best {
        Some(b) => if b.len() <= vals.len() {
            best
        } else {
            Some(vals)
        },
        None => Some(vals),
    }
}

/// The best candidate set for `col` after the pins of `e`, starting from
/// `best`: `col = lit` and `col IN (literals)` reached through `AND`.
pub open spec fn candidates_from(e: Expr, col: Seq<char>, best: Option<Seq<Value>>) -> Option<
    Seq<Value>,
>
    decreases e,
{
    match e {
        Expr::Binary { op, left, right } => if op == BinaryOp::And {
            candidates_from(*right, col, candidates_from(*left, col, best))
        } else if op == BinaryOp::Eq {
            match (*left, *right) {
                (Expr::Column(c), Expr::Literal(v)) => if c@ == col && !(v is Null) {
                    considered(best, seq![v])
                } else {
                    best
                },
                (Expr::Literal(v), Expr::Column(c)) => if c@ == col && !(v is Null) {
                    considered(best, seq![v])
                } else {
                    best
                },
                _ => best,
            }
        } else {
            best
        },
        Expr::InList { expr, list, negated } => match *expr {
            Expr::Column(c) => if c@ == col && !negated {
                match in_values(list@) {
                    Some(vals) => considered(best, vals),
                    None => best,
                }
            } else {
                best
            },
            _ => best,
        },
        _ => best,
    }
}

/// The literal candidates that a filter pins `col` to.
pub open spec fn candidates(e: Expr, col: Seq<char>) -> Option<Seq<Value>> {
    candidates_from(e, col, None)
}

fn push_not_null<'a>(elems: &'a Vec<Value>, out: &mut Vec<&'a Value>)
    ensures
        tuple(final(out)@) == tuple(old(out)@) + not_null(elems@),
{
    let ghost p = |v: Value| !(v is Null);
    let ghost base = tuple(out@);
    let mut i: usize = 0;
    proof {
        assert(elems@.take(0) =~= Seq::<Value>::empty());
        assert(base + elems@.take(0).filter(p) =~= base);
    }
    while i < elems.len()
        invariant
            i <= elems@.len(),
            p == (|v: Value| !(v is Null)),
            tuple(out@) == base + elems@.take(i as int).filter(p),
        decreases elems@.len() - i,
    {
        proof {
            assert(elems@.take(i + 1) =~= elems@.take(i as int).push(elems@[i as int]));
            elems@.take(i as int).lemma_filter_push(elems@[i as int], p);
        }
        if !elems[i].is_null() {
            let ghost before = tuple(out@);
            out.push(&elems[i]);
            proof {
                assert(tuple(out@) =~= before.push(elems@[i as int]));
                assert(before.push(elems@[i as int]) =~= base + elems@.take(i as int).filter(
                    p,
                ).push(elems@[i as int]));
            }
        }
        i = i + 1;
    }
    proof {
        assert(elems@.take(elems@.len() as int) =~= elems@);
    }
}

fn read_in_list<'a>(list: &'a Vec<Expr>) -> (r: Option<Vec<&'a Value>>)
    ensures
        r is Some <==> in_values(list@) is Some,
        r matches Some(vs) ==> in_values(list@) == Some(tuple(vs@)),
{
    let mut out: Vec<&'a Value> = Vec::new();
    let mut i: usize = 0;
    proof {
        assert(list@.take(0) =~= Seq::<Expr>::empty());
        assert(tuple(out@) =~= Seq::<Value>::empty());
    }
    while i < list.len()
        invariant
            i <= list@.len(),
            in_values(list@.take(i as int)) == Some(tuple(out@)),
        decreases list@.len() - i,
    {
        proof {
            assert(list@.take(i + 1).drop_last() =~= list@.take(i as int));
            assert(list@.take(i + 1).last() == list@[i as int]);
            lemma_in_values_prefix(list@, i + 1);
        }
        match &list[i] {
            Expr::Literal(v) => match v {
                Value::Array(elems) => {
                    push_not_null(elems, &mut out);
                },
                Value::Null => {},
                _ => {
                    let ghost before = tuple(out@);
                    out.push(v);
                    proof {
                        assert(tuple(out@) =~= before.push(*v));
                    }
                },
            },
            _ => {
                return None;
            },
        }
        i = i + 1;
    }
    proof {
        assert(list@.take(list@.len() as int) =~= list@);
    }
    Some(out)
}

/// Where a prefix of a list names no values, neither does the list.
proof fn lemma_in_values_prefix(list: Seq<Expr>, k: int)
    requires
        0 <= k <= list.len(),
    ensures
        in_values(list.take(k)) is None ==> in_values(list) is None,
    decreases list.len() - k,
{
    if k == list.len() {
        assert(list.take(k) =~= list);
    } else {
        lemma_in_values_prefix(list, k + 1);
        assert(list.take(k + 1).drop_last() =~= list.take(k));
    }
}

fn consider<'a>(best: Option<Vec<&'a Value>>, vals: Vec<&'a Value>) -> (r: Option<Vec<&'a Value>>)
    ensures
        crate::plan::opt_tuple(r) == considered(crate::plan::opt_tuple(best), tuple(vals@)),
        r is Some,
{
    match best {
        Some(b) => if b.len() <= vals.len() {
            Some(b)
        } else {
            Some(vals)
        },
        None => Some(vals),
    }
}

fn candidates_into<'a>(e: &'a Expr, col: &str, best: Option<Vec<&'a Value>>) -> (r: Option<
    Vec<&'a Value>,
>)
    ensures
        crate::plan::opt_tuple(r) == candidates_from(*e, col@, crate::plan::opt_tuple(best)),
    decreases *e,
{
    match e {
        Expr::Binary { op, left, right } => {
            if *op == BinaryOp::And {
                let mid = candidates_into(left, col, best);
                return candidates_into(right, col, mid);
            }
            if *op == BinaryOp::Eq {
                match (&**left, &**right) {
                    (Expr::Column(c), Expr::Literal(v)) => {
                        if str_eq(c.as_str(), col) && !v.is_null() {
                            let mut one: Vec<&'a Value> = Vec::new();
                            one.push(v);
                            proof {
                                assert(tuple(one@) =~= seq![*v]);
                            }
                            return consider(best, one);
                        }
                    },
                    (Expr::Literal(v), Expr::Column(c)) => {
                        if str_eq(c.as_str(), col) && !v.is_null() {
                            let mut one: Vec<&'a Value> = Vec::new();
                            one.push(v);
                            proof {
                                assert(tuple(one@) =~= seq![*v]);
                            }
                            return consider(best, one);
                        }
                    },
                    _ => {},
                }
            }
            best
        },
        Expr::InList { expr, list, negated } => {
            if let Expr::Column(c) = &**expr {
                if str_eq(c.as_str(), col) && !*negated {
                    if let Some(vals) = read_in_list(list) {
                        return consider(best, vals);
                    }
                }
            }
            best
        },
        _ => best,
    }
}

/// The literal candidate set that pins `col`: from `col = lit` or `col IN
/// (literals)` reached through `AND`, the smallest where several do.
pub fn pk_column_candidates<'a>(expr: &'a Expr, col: &str) -> (r: Option<Vec<&'a Value>>)
    ensures
        r is Some <==> candidates(*expr, col@) is Some,
        r matches Some(vs) ==> candidates(*expr, col@) == Some(tuple(vs@)),
{
    candidates_into(expr, col, None)
}

/// What a list of tuples points to.
pub open spec fn tuples(ts: Seq<Vec<&Value>>) -> Seq<Seq<Value>> {
    ts.map_values(|t: Vec<&Value>| tuple(t@))
}

/// Every way to pick one value per column, the last column varying fastest.
pub open spec fn cross(per_col: Seq<Seq<Value>>) -> Seq<Seq<Value>>
    decreases per_col.len(),
{
    if per_col.len() == 0 {
        seq![Seq::empty()]
    } else {
        spread(cross(per_col.drop_last()), per_col.last())
    }
}

/// Each tuple with each value behind it.
pub open spec fn spread(ts: Seq<Seq<Value>>, vs: Seq<Value>) -> Seq<Seq<Value>>
    decreases ts.len(),
{
    if ts.len() == 0 {
        Seq::empty()
    } else {
        spread(ts.drop_last(), vs) + vs.map_values(|v: Value| ts.last().push(v))
    }
}

/// The number of tuples that picking one value per column makes.
pub open spec fn cross_size(per_col: Seq<Seq<Value>>) -> nat
    decreases per_col.len(),
{
    if per_col.len() == 0 {
        1
    } else {
        cross_size(per_col.drop_last()) * per_col.last().len()
    }
}

/// Whether `t` picks one value of each column.
pub open spec fn picks(per_col: Seq<Seq<Value>>, t: Seq<Value>) -> bool {
    t.len() == per_col.len() && forall|k: int|
        0 <= k < t.len() ==> per_col[k].contains(#[trigger] t[k])
}

proof fn lemma_spread_contains(ts: Seq<Seq<Value>>, vs: Seq<Value>, t: Seq<Value>)
    ensures
        spread(ts, vs).contains(t) <==> t.len() > 0 && ts.contains(t.drop_last()) && vs.contains(
            t.last(),
        ),
        spread(ts, vs).len() == ts.len() * vs.len(),
    decreases ts.len(),
{
    if ts.len() == 0 {
        assert(ts.len() * vs.len() == 0) by (nonlinear_arith)
            requires
                ts.len() == 0,
        ;
    } else {
        let init = ts.drop_last();
        let last = ts.last();
        lemma_spread_contains(init, vs, t);
        let head = spread(init, vs);
        let tail = vs.map_values(|v: Value| last.push(v));
        let all = head + tail;
        assert(ts.len() * vs.len() == init.len() * vs.len() + vs.len()) by (nonlinear_arith)
            requires
                ts.len() == init.len() + 1,
        ;
        if all.contains(t) {
            let i = choose|i: int| 0 <= i < all.len() && all[i] == t;
            if i < head.len() {
                assert(head[i] == t);
                assert(head.contains(t));
                let j = choose|j: int| 0 <= j < init.len() && init[j] == t.drop_last();
                assert(ts[j] == t.drop_last());
            } else {
                let k = i - head.len();
                assert(tail[k] == last.push(vs[k]));
                assert(t.drop_last() =~= last);
                assert(t.last() == vs[k]);
                assert(ts[ts.len() - 1] == t.drop_last());
            }
        }
        if t.len() > 0 && ts.contains(t.drop_last()) && vs.contains(t.last()) {
            let j = choose|j: int| 0 <= j < ts.len() && ts[j] == t.drop_last();
            if j < init.len() {
                assert(init[j] == t.drop_last());
                assert(init.contains(t.drop_last()));
                let i = choose|i: int| 0 <= i < head.len() && head[i] == t;
                assert(all[i] == t);
            } else {
                let k = choose|k: int| 0 <= k < vs.len() && vs[k] == t.last();
                assert(tail[k] == last.push(vs[k]));
                assert(last.push(vs[k]) =~= t);
                assert(all[head.len() + k] == t);
            }
        }
    }
}

/// The cross product holds exactly the tuples that pick one value of each
/// column, and as many as the sizes of the columns multiply to.
pub proof fn cross_is_every_pick(per_col: Seq<Seq<Value>>, t: Seq<Value>)
    ensures
        cross(per_col).contains(t) <==> picks(per_col, t),
        cross(per_col).len() == cross_size(per_col),
    decreases per_col.len(),
{
    if per_col.len() == 0 {
        let c = cross(per_col);
        if c.contains(t) {
            assert(t =~= Seq::<Value>::empty());
        }
        if picks(per_col, t) {
            assert(t =~= Seq::<Value>::empty());
            assert(c[0] == t);
        }
    } else {
        let init = per_col.drop_last();
        lemma_spread_contains(cross(init), per_col.last(), t);
        if t.len() > 0 {
            cross_is_every_pick(init, t.drop_last());
            if picks(per_col, t) {
                assert forall|k: int| 0 <= k < t.drop_last().len() implies init[k].contains(
                    #[trigger] t.drop_last()[k],
                ) by {
                    assert(per_col[k].contains(t[k]));
                }
                assert(per_col[t.len() - 1].contains(t[t.len() - 1]));
            }
            if cross(per_col).contains(t) {
                assert forall|k: int| 0 <= k < t.len() implies per_col[k].contains(
                    #[trigger] t[k],
                ) by {
                    if k < t.len() - 1 {
                        assert(init[k].contains(t.drop_last()[k]));
                    }
                }
            }
        } else {
            cross_is_every_pick(init, t);
        }
    }
}

/// Every way to pick one value per column.
fn cross_product<'a>(per_col: &Vec<Vec<&'a Value>>) -> (r: Vec<Vec<&'a Value>>)
    ensures
        tuples(r@) == cross(tuples(per_col@)),
{
    let ghost cols = tuples(per_col@);
    let mut acc: Vec<Vec<&'a Value>> = Vec::new();
    acc.push(Vec::new());
    let mut c: usize = 0;
    proof {
        assert(tuple(acc@[0]@) =~= Seq::<Value>::empty());
        assert(tuples(acc@) =~= seq![Seq::<Value>::empty()]);
        assert(cols.take(0) =~= Seq::<Seq<Value>>::empty());
    }
    while c < per_col.len()
        invariant
            c <= per_col@.len(),
            cols == tuples(per_col@),
            tuples(acc@) == cross(cols.take(c as int)),
        decreases per_col@.len() - c,
    {
        let vals = &per_col[c];
        let ghost ts = tuples(acc@);
        let ghost vs = tuple(vals@);
        let mut next: Vec<Vec<&'a Value>> = Vec::new();
        let mut i: usize = 0;
        proof {
            assert(ts.take(0) =~= Seq::<Seq<Value>>::empty());
            assert(tuples(next@) =~= spread(ts.take(0), vs));
        }
        while i < acc.len()
            invariant
                i <= acc@.len(),
                ts == tuples(acc@),
                vs == tuple(vals@),
                tuples(next@) == spread(ts.take(i as int), vs),
            decreases acc@.len() - i,
        {
            let ghost head = tuples(next@);
            let ghost row = ts[i as int];
            let mut j: usize = 0;
            proof {
                assert(head + vs.take(0).map_values(|v: Value| row.push(v)) =~= head);
            }
            while j < vals.len()
                invariant
                    i < acc@.len(),
                    j <= vals@.len(),
                    ts == tuples(acc@),
                    row == ts[i as int],
                    vs == tuple(vals@),
                    tuples(next@) == head + vs.take(j as int).map_values(|v: Value| row.push(v)),
                decreases vals@.len() - j,
            {
                let ghost before = tuples(next@);
                let t = crate::plan::extended(&acc[i], vals[j]);
                next.push(t);
                proof {
                    assert(tuple(acc@[i as int]@) == row);
                    assert(tuples(next@) =~= before.push(row.push(vs[j as int])));
                    assert(vs.take(j + 1).map_values(|v: Value| row.push(v)) =~= vs.take(
                        j as int,
                    ).map_values(|v: Value| row.push(v)).push(row.push(vs[j as int])));
                    assert(tuples(next@) =~= head + vs.take(j + 1).map_values(
                        |v: Value| row.push(v),
                    ));
                }
                j = j + 1;
            }
            proof {
                assert(vs.take(vs.len() as int) =~= vs);
                assert(ts.take(i + 1).drop_last() =~= ts.take(i as int));
                assert(ts.take(i + 1).last() == row);
            }
            i = i + 1;
        }
        proof {
            assert(ts.take(ts.len() as int) =~= ts);
            assert(cols.take(c + 1).drop_last() =~= cols.take(c as int));
            assert(cols.take(c + 1).last() == vs);
        }
        acc = next;
        c = c + 1;
    }
    proof {
        assert(cols.take(cols.len() as int) =~= cols);
    }
    acc
}

/// What the pins of a filter say of a list of columns.
pub enum PinsView {
    /// Some column is not pinned to literals.
    Unpinned,
    /// A column is pinned to no value: nothing matches.
    Nothing,
    /// Each column's candidates, in column order.
    Every(Seq<Seq<Value>>),
}

/// What the pins of a filter say of a list of columns, taken in order: the
/// first column without a pin or without a value decides.
pub open spec fn pins(e: Expr, cols: Seq<Seq<char>>) -> PinsView
    decreases cols.len(),
{
    if cols.len() == 0 {
        PinsView::Every(Seq::empty())
    } else {
        match pins(e, cols.drop_last()) {
            PinsView::Every(cs) => match candidates(e, cols.last()) {
                None => PinsView::Unpinned,
                Some(vs) => if vs.len() == 0 {
                    PinsView::Nothing
                } else {
                    PinsView::Every(cs.push(vs))
                },
            },
            other => other,
        }
    }
}

enum Pins<'a> {
    Unpinned,
    Nothing,
    Every(Vec<Vec<&'a Value>>),
}

spec fn pins_are(p: Pins<'_>, v: PinsView) -> bool {
    match p {
        Pins::Unpinned => v is Unpinned,
        Pins::Nothing => v is Nothing,
        Pins::Every(cs) => v == PinsView::Every(tuples(cs@)),
    }
}

/// A prefix of the columns that is not fully pinned decides.
proof fn lemma_pins_prefix(e: Expr, cols: Seq<Seq<char>>, k: int)
    requires
        0 <= k <= cols.len(),
        !(pins(e, cols.take(k)) is Every),
    ensures
        pins(e, cols) == pins(e, cols.take(k)),
    decreases cols.len() - k,
{
    if k == cols.len() {
        assert(cols.take(k) =~= cols);
    } else {
        assert(cols.take(k + 1).drop_last() =~= cols.take(k));
        lemma_pins_prefix(e, cols, k + 1);
    }
}

fn find_pins<'a>(expr: &'a Expr, cols: &Vec<String>) -> (r: Pins<'a>)
    ensures
        pins_are(r, pins(*expr, views(cols@))),
{
    let ghost cs = views(cols@);
    let mut out: Vec<Vec<&'a Value>> = Vec::new();
    let mut i: usize = 0;
    proof {
        assert(cs.take(0) =~= Seq::<Seq<char>>::empty());
        assert(tuples(out@) =~= Seq::<Seq<Value>>::empty());
    }
    while i < cols.len()
        invariant
            i <= cols@.len(),
            cs == views(cols@),
            pins(*expr, cs.take(i as int)) == PinsView::Every(tuples(out@)),
        decreases cols@.len() - i,
    {
        proof {
            assert(cs.take(i + 1).drop_last() =~= cs.take(i as int));
            assert(cs.take(i + 1).last() == cs[i as int]);
        }
        match pk_column_candidates(expr, cols[i].as_str()) {
            None => {
                proof {
                    lemma_pins_prefix(*expr, cs, i + 1);
                }
                return Pins::Unpinned;
            },
            Some(vs) => {
                proof {
                    assert(tuple(vs@).len() == vs@.len());
                }
                if vs.len() == 0 {
                    proof {
                        lemma_pins_prefix(*expr, cs, i + 1);
                    }
                    return Pins::Nothing;
                }
                let ghost before = tuples(out@);
                let ghost v = tuple(vs@);
                out.push(vs);
                proof {
                    assert(tuples(out@) =~= before.push(v));
                }
            },
        }
        i = i + 1;
    }
    proof {
        assert(cs.take(cs.len() as int) =~= cs);
    }
    Pins::Every(out)
}

/// Whether the columns' candidates make at most `max` tuples.
fn cross_fits(per_col: &Vec<Vec<&Value>>, max: usize) -> (r: bool)
    requires
        max >= 1,
        forall|i: int| 0 <= i < per_col@.len() ==> (#[trigger] per_col@[i])@.len() > 0,
    ensures
        r == (cross_size(tuples(per_col@)) <= max),
{
    let ghost cols = tuples(per_col@);
    let mut total: usize = 1;
    let mut i: usize = 0;
    proof {
        assert(cols.take(0) =~= Seq::<Seq<Value>>::empty());
    }
    while i < per_col.len()
        invariant
            i <= per_col@.len(),
            cols == tuples(per_col@),
            total <= max,
            total >= 1,
            total == cross_size(cols.take(i as int)),
            forall|k: int| 0 <= k < per_col@.len() ==> (#[trigger] per_col@[k])@.len() > 0,
        decreases per_col@.len() - i,
    {
        let n: usize = per_col[i].len();
        proof {
            assert(cols.take(i + 1).drop_last() =~= cols.take(i as int));
            assert(cols.take(i + 1).last() == tuple(per_col@[i as int]@));
            assert(cols.take(i + 1).last().len() == n);
            lemma_cross_size_grows(cols, i + 1);
        }
        match total.checked_mul(n) {
            None => {
                return false;
            },
            Some(t) => {
                if t > max {
                    return false;
                }
                proof {
                    assert(total * n >= 1) by (nonlinear_arith)
                        requires
                            total >= 1,
                            n >= 1,
                    ;
                }
                total = t;
            },
        }
        i = i + 1;
    }
    proof {
        assert(cols.take(cols.len() as int) =~= cols);
    }
    true
}

/// With a value for every column, more columns never make fewer tuples.
proof fn lemma_cross_size_grows(cols: Seq<Seq<Value>>, k: int)
    requires
        0 <= k <= cols.len(),
        forall|i: int| 0 <= i < cols.len() ==> (#[trigger] cols[i]).len() > 0,
    ensures
        cross_size(cols) >= cross_size(cols.take(k)),
    decreases cols.len() - k,
{
    if k == cols.len() {
        assert(cols.take(k) =~= cols);
    } else {
        lemma_cross_size_grows(cols, k + 1);
        assert(cols.take(k + 1).drop_last() =~= cols.take(k));
        let a = cross_size(cols.take(k));
        let n = cols.take(k + 1).last().len();
        assert(n == cols[k].len());
        assert(a * n >= a) by (nonlinear_arith)
            requires
                n >= 1,
        ;
    }
}

/// The key tuples that a filter pins the primary key to: nothing where a
/// column is unpinned or they are too many, none where a column has no value.
pub open spec fn point_tuples(pk: Seq<Seq<char>>, filter: Option<Expr>) -> Option<Seq<Seq<Value>>> {
    if pk.len() == 0 || filter is None {
        None
    } else {
        match pins(filter->0, pk) {
            PinsView::Unpinned => None,
            PinsView::Nothing => Some(Seq::empty()),
            PinsView::Every(cols) => if cross_size(cols) > PK_IN_MAX_KEYS {
                None
            } else {
                Some(cross(cols))
            },
        }
    }
}

proof fn lemma_pins_nonempty(e: Expr, cols: Seq<Seq<char>>)
    ensures
        pins(e, cols) matches PinsView::Every(cs) ==> cs.len() == cols.len() && forall|i: int|
            0 <= i < cs.len() ==> (#[trigger] cs[i]).len() > 0,
    decreases cols.len(),
{
    if cols.len() > 0 {
        lemma_pins_nonempty(e, cols.drop_last());
    }
}

/// The key tuples of a filter that pins every primary-key column by a literal
/// equality or a literal `IN` list. The encoded keys are an ascending set: see
/// [`unique_sorted`].
pub fn pk_point_keys<'a>(pk: &Vec<String>, filter: &'a Option<Expr>) -> (r: Option<
    Vec<Vec<&'a Value>>,
>)
    ensures
        r is Some <==> point_tuples(views(pk@), *filter) is Some,
        r matches Some(ts) ==> point_tuples(views(pk@), *filter) == Some(tuples(ts@)),
{
    if pk.len() == 0 {
        return None;
    }
    match filter {
        None => None,
        Some(expr) => {
            proof {
                lemma_pins_nonempty(*expr, views(pk@));
            }
            match find_pins(expr, pk) {
                Pins::Unpinned => None,
                Pins::Nothing => {
                    let none: Vec<Vec<&'a Value>> = Vec::new();
                    proof {
                        assert(tuples(none@) =~= Seq::<Seq<Value>>::empty());
                    }
                    Some(none)
                },
                Pins::Every(cols) => {
                    proof {
                        assert forall|i: int| 0 <= i < cols@.len() implies (#[trigger] cols@[i])@.len()
                            > 0 by {
                            assert(tuples(cols@)[i].len() > 0);
                        }
                    }
                    if !cross_fits(&cols, PK_IN_MAX_KEYS) {
                        return None;
                    }
                    Some(cross_product(&cols))
                },
            }
        },
    }
}

/// The routed probe that one global index makes of a filter: the tuples to
/// probe, or that it cannot serve the filter, or that they are too many.
pub enum ProbeView {
    Unpinned,
    TooMany,
    Tuples(Seq<Seq<Value>>),
}

/// What a ready global index on the columns `cols` makes of a filter.
pub open spec fn probe_of(e: Expr, cols: Seq<Seq<char>>) -> ProbeView {
    match pins(e, cols) {
        PinsView::Unpinned => ProbeView::Unpinned,
        PinsView::Nothing => ProbeView::Tuples(Seq::empty()),
        PinsView::Every(cs) => if cross_size(cs) > GIDX_PROBE_RANGES {
            ProbeView::TooMany
        } else {
            ProbeView::Tuples(cross(cs))
        },
    }
}

/// Whether a row meets the pins of a filter, by order keys: every `col = lit`
/// and `col IN (literals)` reached through `AND`.
pub open spec fn meets_pins<F: Fn(&Value) -> Vec<u8>>(
    key: F,
    row: spec_fn(Seq<char>) -> Value,
    e: Expr,
) -> bool
    decreases e,
{
    match e {
        Expr::Binary { op, left, right } => if op == BinaryOp::And {
            meets_pins(key, row, *left) && meets_pins(key, row, *right)
        } else if op == BinaryOp::Eq {
            match (*left, *right) {
                (Expr::Column(c), Expr::Literal(v)) => !(v is Null) && among(key, seq![v], row(c@)),
                (Expr::Literal(v), Expr::Column(c)) => !(v is Null) && among(key, seq![v], row(c@)),
                _ => true,
            }
        } else {
            true
        },
        Expr::InList { expr, list, negated } => match *expr {
            Expr::Column(c) => !negated ==> (in_values(list@) matches Some(vals) ==> among(
                key,
                vals,
                row(c@),
            )),
            _ => true,
        },
        _ => true,
    }
}

/// Whether a value has the order key of one of a list.
pub open spec fn among<F: Fn(&Value) -> Vec<u8>>(key: F, vals: Seq<Value>, x: Value) -> bool {
    exists|i: int| 0 <= i < vals.len() && order_key(key, #[trigger] vals[i]) == order_key(key, x)
}

proof fn lemma_candidates_hold<F: Fn(&Value) -> Vec<u8>>(
    key: F,
    row: spec_fn(Seq<char>) -> Value,
    e: Expr,
    col: Seq<char>,
    best: Option<Seq<Value>>,
)
    requires
        meets_pins(key, row, e),
        best matches Some(b) ==> among(key, b, row(col)),
    ensures
        candidates_from(e, col, best) matches Some(b) ==> among(key, b, row(col)),
    decreases e,
{
    match e {
        Expr::Binary { op, left, right } => {
            if op == BinaryOp::And {
                lemma_candidates_hold(key, row, *left, col, best);
                lemma_candidates_hold(key, row, *right, col, candidates_from(*left, col, best));
            }
        },
        _ => {},
    }
}

proof fn lemma_pins_hold<F: Fn(&Value) -> Vec<u8>>(
    key: F,
    row: spec_fn(Seq<char>) -> Value,
    e: Expr,
    cols: Seq<Seq<char>>,
) -> (t: Seq<Value>)
    requires
        meets_pins(key, row, e),
    ensures
        !(pins(e, cols) is Nothing),
        pins(e, cols) matches PinsView::Every(cs) ==> picks(cs, t) && keys_of(key, t)
            == entry_keys(key, row, cols),
    decreases cols.len(),
{
    if cols.len() == 0 {
        let t = Seq::<Value>::empty();
        assert(keys_of(key, t) =~= entry_keys(key, row, cols));
        t
    } else {
        let init = lemma_pins_hold(key, row, e, cols.drop_last());
        let col = cols.last();
        lemma_candidates_hold(key, row, e, col, None);
        match (pins(e, cols.drop_last()), candidates(e, col)) {
            (PinsView::Every(cs), Some(vs)) => {
                let i = choose|i: int|
                    0 <= i < vs.len() && order_key(key, #[trigger] vs[i]) == order_key(
                        key,
                        row(col),
                    );
                let t = init.push(vs[i]);
                let every = cs.push(vs);
                assert forall|k: int| 0 <= k < t.len() implies every[k].contains(
                    #[trigger] t[k],
                ) by {
                    if k < init.len() {
                        assert(cs[k].contains(init[k]));
                    }
                }
                assert(entry_keys(key, row, cols) =~= entry_keys(key, row, cols.drop_last()).push(
                    order_key(key, row(col)),
                ));
                assert(keys_of(key, t) =~= keys_of(key, init).push(order_key(key, vs[i])));
                t
            },
            _ => init,
        }
    }
}

/// Point reads and routed probes lose no match: where a filter pins the
/// columns of a key, the key of every row that meets the pins is one of the
/// tuples read.
pub proof fn pins_lose_no_match<F: Fn(&Value) -> Vec<u8>>(
    key: F,
    row: spec_fn(Seq<char>) -> Value,
    e: Expr,
    cols: Seq<Seq<char>>,
)
    requires
        meets_pins(key, row, e),
    ensures
        point_tuples(cols, Some(e)) matches Some(ts) ==> exists|i: int|
            0 <= i < ts.len() && keys_of(key, #[trigger] ts[i]) == entry_keys(key, row, cols),
        probe_of(e, cols) matches ProbeView::Tuples(ts) ==> exists|i: int|
            0 <= i < ts.len() && keys_of(key, #[trigger] ts[i]) == entry_keys(key, row, cols),
{
    let t = lemma_pins_hold(key, row, e, cols);
    if let PinsView::Every(cs) = pins(e, cols) {
        cross_is_every_pick(cs, t);
        let i = choose|i: int| 0 <= i < cross(cs).len() && cross(cs)[i] == t;
        if let Some(ts) = point_tuples(cols, Some(e)) {
            assert(keys_of(key, ts[i]) == entry_keys(key, row, cols));
        }
        if let ProbeView::Tuples(ts) = probe_of(e, cols) {
            assert(keys_of(key, ts[i]) == entry_keys(key, row, cols));
        }
    }
}

/// Whether an index is a ready global one on `table` whose every column the
/// filter pins.
pub open spec fn routes(x: (String, IndexDef), table: Seq<char>, e: Expr) -> bool {
    let d = x.1@;
    d.table == table && d.global && !d.building && !(probe_of(e, key_names(d.paths)) is Unpinned)
}

/// Whether a probe is that of the first routing index in name order; nothing
/// where none routes or the first one would make too many tuples.
pub open spec fn probe_is(
    r: Option<(String, Vec<Vec<&Value>>)>,
    es: Seq<(String, IndexDef)>,
    table: Seq<char>,
    e: Expr,
) -> bool {
    (r is None && forall|k: int| 0 <= k < es.len() ==> !routes(#[trigger] es[k], table, e))
        || exists|k: int|
        0 <= k < es.len() && routes(#[trigger] es[k], table, e) && (forall|j: int|
            0 <= j < k ==> !routes(#[trigger] es[j], table, e)) && match probe_of(
            e,
            key_names(es[k].1@.paths),
        ) {
            ProbeView::Tuples(ts) => r matches Some((name, out)) && name@ == es[k].0@ && tuples(
                out@,
            ) == ts,
            _ => r is None,
        }
}

/// The index of a routed global probe, by name.
pub open spec fn routed(es: Seq<(String, IndexDef)>, table: Seq<char>, e: Expr) -> Option<Seq<char>>
    decreases es.len(),
{
    if es.len() == 0 {
        None
    } else if routes(es[0], table, e) {
        match probe_of(e, key_names(es[0].1@.paths)) {
            ProbeView::Tuples(_) => Some(es[0].0@),
            _ => None,
        }
    } else {
        routed(es.skip(1), table, e)
    }
}

/// A probe's index is the routed one.
pub proof fn lemma_routed(
    r: Option<(String, Vec<Vec<&Value>>)>,
    es: Seq<(String, IndexDef)>,
    table: Seq<char>,
    e: Expr,
)
    requires
        probe_is(r, es, table, e),
    ensures
        routed(es, table, e) == (match r {
            Some((name, _)) => Some(name@),
            None => None,
        }),
    decreases es.len(),
{
    if es.len() > 0 && !routes(es[0], table, e) {
        let rest = es.skip(1);
        if forall|k: int| 0 <= k < es.len() ==> !routes(#[trigger] es[k], table, e) {
            assert forall|k: int| 0 <= k < rest.len() implies !routes(#[trigger] rest[k], table, e) by {
                assert(rest[k] == es[k + 1]);
            }
            assert(probe_is(None, rest, table, e));
            assert(r is None);
        } else {
            let k = choose|k: int|
                0 <= k < es.len() && routes(#[trigger] es[k], table, e) && (forall|j: int|
                    0 <= j < k ==> !routes(#[trigger] es[j], table, e)) && match probe_of(
                    e,
                    key_names(es[k].1@.paths),
                ) {
                    ProbeView::Tuples(ts) => r matches Some((name, out)) && name@ == es[k].0@
                        && tuples(out@) == ts,
                    _ => r is None,
                };
            assert(k > 0);
            assert(rest[k - 1] == es[k]);
            assert forall|j: int| 0 <= j < k - 1 implies !routes(#[trigger] rest[j], table, e) by {
                assert(rest[j] == es[j + 1]);
            }
        }
        lemma_routed(r, rest, table, e);
    }
}

/// Plans a routed global-index probe: the first ready global index whose
/// every column is pinned by an equality or a literal `IN` list, and one tuple
/// of values per entry range to read.
pub fn plan_global_probe<'a>(
    indexes: &SortedMap<String, IndexDef>,
    table: &str,
    filter: &'a Option<Expr>,
) -> (r: Option<(String, Vec<Vec<&'a Value>>)>)
    requires
        indexes.wf(),
    ensures
        *filter is None ==> r is None,
        *filter matches Some(e) ==> probe_is(r, indexes.entries@, table@, e),
{
    let expr = match filter {
        None => {
            return None;
        },
        Some(e) => e,
    };
    let ghost es = indexes.entries@;
    let mut i: usize = 0;
    while i < indexes.len()
        invariant
            indexes.wf(),
            es == indexes.entries@,
            i <= es.len(),
            *filter == Some(*expr),
            forall|k: int| 0 <= k < i ==> !routes(#[trigger] es[k], table@, *expr),
        decreases es.len() - i,
    {
        let def = indexes.value_at(i);
        if str_eq(def.table.as_str(), table) && def.global && !def.building {
            let cols = index_key_names(&def.paths);
            proof {
                lemma_pins_nonempty(*expr, views(cols@));
            }
            match find_pins(expr, &cols) {
                Pins::Unpinned => {},
                Pins::Nothing => {
                    let none: Vec<Vec<&'a Value>> = Vec::new();
                    proof {
                        assert(tuples(none@) =~= Seq::<Seq<Value>>::empty());
                        assert(routes(es[i as int], table@, *expr));
                    }
                    return Some((indexes.key_at(i).clone(), none));
                },
                Pins::Every(per_col) => {
                    proof {
                        assert(routes(es[i as int], table@, *expr));
                        assert forall|k: int| 0 <= k < per_col@.len() implies (
                        #[trigger] per_col@[k])@.len() > 0 by {
                            assert(tuples(per_col@)[k].len() > 0);
                        }
                    }
                    if !cross_fits(&per_col, GIDX_PROBE_RANGES) {
                        return None;
                    }
                    return Some((indexes.key_at(i).clone(), cross_product(&per_col)));
                },
            }
        }
        i = i + 1;
    }
    None
}

/// The bytes of each key of a list.
pub open spec fn key_views(ks: Seq<Vec<u8>>) -> Seq<Seq<u8>> {
    ks.map_values(|k: Vec<u8>| k@)
}

/// Keys in strictly ascending order.
pub open spec fn keys_ascend(ks: Seq<Seq<u8>>) -> bool {
    forall|i: int, j: int| 0 <= i < j < ks.len() ==> bytes_lt(#[trigger] ks[i], #[trigger] ks[j])
}

/// A set of keys, kept in ascending order.
pub struct KeySet {
    pub keys: SortedMap<Vec<u8>, ()>,
}

impl View for KeySet {
    type V = Set<Seq<u8>>;

    open spec fn view(&self) -> Set<Seq<u8>> {
        self.keys@.dom()
    }
}

impl KeySet {
    pub open spec fn wf(&self) -> bool {
        self.keys.wf()
    }

    /// The empty set.
    pub fn new() -> (r: KeySet)
        ensures
            r.wf(),
            r@ == Set::<Seq<u8>>::empty(),
    {
        let r = KeySet { keys: SortedMap::new() };
        proof {
            assert(r@ =~= Set::<Seq<u8>>::empty());
        }
        r
    }

    /// Adds a key and says whether it was new.
    pub fn add_key(&mut self, key: Vec<u8>) -> (r: bool)
        requires
            old(self).wf(),
        ensures
            final(self).wf(),
            final(self)@ == old(self)@.insert(key@),
            r == !old(self)@.contains(key@),
    {
        let known: bool = self.keys.contains(&key);
        self.keys.insert(key, ());
        proof {
            assert(self@ =~= old(self)@.insert(key@));
        }
        !known
    }

    /// Whether `key` is in the set.
    pub fn contains(&self, key: &Vec<u8>) -> (r: bool)
        requires
            self.wf(),
        ensures
            r == self@.contains(key@),
    {
        self.keys.contains(key)
    }

    /// The keys in ascending order.
    pub fn to_keys(&self) -> (r: Vec<Vec<u8>>)
        requires
            self.wf(),
        ensures
            keys_ascend(key_views(r@)),
            forall|k: Seq<u8>| #[trigger] key_views(r@).contains(k) <==> self@.contains(k),
    {
        let ghost es = self.keys.entries@;
        let mut out: Vec<Vec<u8>> = Vec::new();
        let mut i: usize = 0;
        while i < self.keys.len()
            invariant
                self.wf(),
                es == self.keys.entries@,
                i <= es.len(),
                out@.len() == i,
                forall|k: int| 0 <= k < i ==> (#[trigger] out@[k])@ == es[k].0@,
            decreases es.len() - i,
        {
            out.push(copy_bytes(self.keys.key_at(i).as_slice()));
            i = i + 1;
        }
        proof {
            let ks = key_views(out@);
            assert forall|a: int, b: int| 0 <= a < b < ks.len() implies bytes_lt(
                #[trigger] ks[a],
                #[trigger] ks[b],
            ) by {
                assert(out@[a]@ == es[a].0@);
                assert(out@[b]@ == es[b].0@);
                assert(<Vec<u8> as SortKey>::below(es[a].0.model(), es[b].0.model()));
            }
            assert forall|k: Seq<u8>| #[trigger] ks.contains(k) <==> self@.contains(k) by {
                if ks.contains(k) {
                    let p = choose|p: int| 0 <= p < ks.len() && ks[p] == k;
                    assert(out@[p]@ == es[p].0@);
                    lemma_entry_at(es, p);
                }
                if self@.contains(k) {
                    let p = place_of(es, k);
                    assert(holds_key(es, k));
                    assert(out@[p]@ == es[p].0@);
                    assert(ks[p] == k);
                }
            }
        }
        out
    }
}

/// The distinct keys of a list, in ascending order.
pub fn unique_sorted(keys: &Vec<Vec<u8>>) -> (r: Vec<Vec<u8>>)
    ensures
        keys_ascend(key_views(r@)),
        forall|k: Seq<u8>| #[trigger] key_views(r@).contains(k) <==> key_views(keys@).contains(k),
{
    let set = key_set(keys);
    set.to_keys()
}

/// The set of a list's keys.
pub fn key_set(keys: &Vec<Vec<u8>>) -> (r: KeySet)
    ensures
        r.wf(),
        forall|k: Seq<u8>| #[trigger] r@.contains(k) <==> key_views(keys@).contains(k),
{
    let ghost ks = key_views(keys@);
    let mut set = KeySet::new();
    let mut i: usize = 0;
    while i < keys.len()
        invariant
            i <= keys@.len(),
            ks == key_views(keys@),
            set.wf(),
            forall|k: Seq<u8>| #[trigger]
                set@.contains(k) <==> exists|j: int| 0 <= j < i && #[trigger] ks[j] == k,
        decreases keys@.len() - i,
    {
        proof {
            assert(ks[i as int] == keys@[i as int]@);
        }
        set.add_key(copy_bytes(keys[i].as_slice()));
        i = i + 1;
    }
    proof {
        assert forall|k: Seq<u8>| #[trigger] set@.contains(k) <==> ks.contains(k) by {
            if ks.contains(k) {
                let j = choose|j: int| 0 <= j < ks.len() && ks[j] == k;
                assert(ks[j] == k);
            }
        }
    }
    set
}

/// Whether a list holds, in ascending order, the keys of `ks` that are not
/// among `from`.
pub open spec fn lists_missing(s: Seq<Seq<u8>>, ks: Seq<Seq<u8>>, from: Seq<Seq<u8>>) -> bool {
    keys_ascend(s) && forall|k: Seq<u8>| #[trigger]
        s.contains(k) <==> ks.contains(k) && !from.contains(k)
}

/// The keys of `ks` that are not among `from`, in ascending order.
pub open spec fn sorted_missing(ks: Seq<Seq<u8>>, from: Seq<Seq<u8>>) -> Seq<Seq<u8>> {
    choose|s: Seq<Seq<u8>>| lists_missing(s, ks, from)
}

/// Two ascending lists of the same keys are one list.
pub proof fn lemma_keys_unique(a: Seq<Seq<u8>>, b: Seq<Seq<u8>>)
    requires
        keys_ascend(a),
        keys_ascend(b),
        forall|k: Seq<u8>| #[trigger] a.contains(k) <==> b.contains(k),
    ensures
        a == b,
    decreases a.len(),
{
    if a.len() == 0 {
        if b.len() > 0 {
            assert(b.contains(b[0]));
            assert(a.contains(b[0]));
        }
        assert(a =~= b);
    } else {
        let x = a.last();
        assert(a.contains(x));
        assert(b.contains(x));
        let bi = b.index_of(x);
        let y = b.last();
        assert(b.contains(y));
        assert(a.contains(y));
        let ai = a.index_of(y);
        if x != y {
            assert(bytes_lt(a[ai], a[a.len() - 1]));
            assert(bytes_lt(b[bi], b[b.len() - 1]));
            crate::bytes::lemma_bytes_lt_trans(x, y, x);
            crate::bytes::lemma_bytes_lt_irrefl(x);
        }
        let a0 = a.drop_last();
        let b0 = b.drop_last();
        assert forall|k: Seq<u8>| #[trigger] a0.contains(k) <==> b0.contains(k) by {
            lemma_keys_drop_last(a, k);
            lemma_keys_drop_last(b, k);
        }
        lemma_keys_unique(a0, b0);
        assert(a =~= a0.push(x));
        assert(b =~= b0.push(y));
    }
}

proof fn lemma_keys_drop_last(a: Seq<Seq<u8>>, k: Seq<u8>)
    requires
        keys_ascend(a),
        a.len() > 0,
    ensures
        a.drop_last().contains(k) <==> a.contains(k) && k != a.last(),
{
    let a0 = a.drop_last();
    if a0.contains(k) {
        let i = a0.index_of(k);
        assert(a[i] == k);
        assert(bytes_lt(a[i], a[a.len() - 1]));
        crate::bytes::lemma_bytes_lt_irrefl(k);
    }
    if a.contains(k) && k != a.last() {
        let i = a.index_of(k);
        assert(a0[i] == k);
    }
}

/// There is one such list.
pub proof fn lemma_sorted_missing(s: Seq<Seq<u8>>, ks: Seq<Seq<u8>>, from: Seq<Seq<u8>>)
    requires
        lists_missing(s, ks, from),
    ensures
        sorted_missing(ks, from) == s,
{
    let c = sorted_missing(ks, from);
    assert(lists_missing(c, ks, from));
    assert forall|k: Seq<u8>| #[trigger] c.contains(k) <==> s.contains(k) by {
        assert(c.contains(k) <==> ks.contains(k) && !from.contains(k));
        assert(s.contains(k) <==> ks.contains(k) && !from.contains(k));
    }
    lemma_keys_unique(c, s);
}

/// The entry keys that a row change takes away and adds to a global index: the
/// old ones that the new document does not produce, and the new ones that the
/// old did not have. Unchanged entries are not touched.
pub fn global_entry_delta(old_keys: &Vec<Vec<u8>>, new_keys: &Vec<Vec<u8>>) -> (r: (
    Vec<Vec<u8>>,
    Vec<Vec<u8>>,
))
    ensures
        keys_ascend(key_views(r.0@)),
        keys_ascend(key_views(r.1@)),
        forall|k: Seq<u8>| #[trigger]
            key_views(r.0@).contains(k) <==> key_views(old_keys@).contains(k) && !key_views(
                new_keys@,
            ).contains(k),
        forall|k: Seq<u8>| #[trigger]
            key_views(r.1@).contains(k) <==> key_views(new_keys@).contains(k) && !key_views(
                old_keys@,
            ).contains(k),
        key_views(r.0@) == sorted_missing(key_views(old_keys@), key_views(new_keys@)),
        key_views(r.1@) == sorted_missing(key_views(new_keys@), key_views(old_keys@)),
{
    let before = key_set(old_keys);
    let after = key_set(new_keys);
    let gone = keys_missing(old_keys, &after);
    let come = keys_missing(new_keys, &before);
    proof {
        let olds = key_views(old_keys@);
        let news = key_views(new_keys@);
        assert(lists_missing(key_views(gone@), olds, news));
        assert(lists_missing(key_views(come@), news, olds));
        lemma_sorted_missing(key_views(gone@), olds, news);
        lemma_sorted_missing(key_views(come@), news, olds);
    }
    (gone, come)
}

/// The distinct keys of a list that are not in a set, in ascending order.
fn keys_missing(keys: &Vec<Vec<u8>>, from: &KeySet) -> (r: Vec<Vec<u8>>)
    requires
        from.wf(),
    ensures
        keys_ascend(key_views(r@)),
        forall|k: Seq<u8>| #[trigger]
            key_views(r@).contains(k) <==> key_views(keys@).contains(k) && !from@.contains(k),
{
    let ghost ks = key_views(keys@);
    let mut set = KeySet::new();
    let mut i: usize = 0;
    while i < keys.len()
        invariant
            i <= keys@.len(),
            ks == key_views(keys@),
            set.wf(),
            from.wf(),
            forall|k: Seq<u8>| #[trigger]
                set@.contains(k) <==> !from@.contains(k) && exists|j: int|
                    0 <= j < i && #[trigger] ks[j] == k,
        decreases keys@.len() - i,
    {
        proof {
            assert(ks[i as int] == keys@[i as int]@);
        }
        if !from.contains(&keys[i]) {
            set.add_key(copy_bytes(keys[i].as_slice()));
        }
        i = i + 1;
    }
    proof {
        assert forall|k: Seq<u8>| #[trigger]
            set@.contains(k) <==> ks.contains(k) && !from@.contains(k) by {
            if ks.contains(k) {
                let j = choose|j: int| 0 <= j < ks.len() && ks[j] == k;
                assert(ks[j] == k);
            }
        }
    }
    set.to_keys()
}

/// After a change's deletes and puts, the index holds of the row exactly the
/// entries that the new document produces, if it held exactly those of the old.
pub proof fn delta_moves_entries(
    entries: Set<Seq<u8>>,
    old_keys: Seq<Seq<u8>>,
    new_keys: Seq<Seq<u8>>,
    dels: Seq<Seq<u8>>,
    puts: Seq<Seq<u8>>,
    k: Seq<u8>,
)
    requires
        forall|x: Seq<u8>| #[trigger]
            dels.contains(x) <==> old_keys.contains(x) && !new_keys.contains(x),
        forall|x: Seq<u8>| #[trigger]
            puts.contains(x) <==> new_keys.contains(x) && !old_keys.contains(x),
        old_keys.contains(k) ==> entries.contains(k),
    ensures
        ((entries.contains(k) && !dels.contains(k)) || puts.contains(k)) <==> new_keys.contains(k)
            || (entries.contains(k) && !old_keys.contains(k)),
{
    assert(dels.contains(k) <==> old_keys.contains(k) && !new_keys.contains(k));
    assert(puts.contains(k) <==> new_keys.contains(k) && !old_keys.contains(k));
}

/// The tuples that a row has in an index, from its values at the indexed
/// columns: one, or one per element of the array at the multikey component.
pub open spec fn value_tuples(base: Seq<Value>, paths: Seq<Seq<char>>) -> Seq<Seq<Value>> {
    let m = multi_from(paths, 0);
    if m < paths.len() {
        match base[m] {
            Value::Array(items) => Seq::new(
                items@.len(),
                |i: int| base.update(m, items@[i]),
            ),
            _ => seq![base],
        }
    } else {
        seq![base]
    }
}

/// Every index entry tuple of a row, from its values at the indexed columns.
pub fn index_value_tuples<'a>(base: Vec<&'a Value>, paths: &Vec<String>) -> (r: Vec<Vec<&'a Value>>)
    requires
        base@.len() == paths@.len(),
    ensures
        tuples(r@) == value_tuples(tuple(base@), views(paths@)),
{
    let ghost b = tuple(base@);
    if let Some(m) = multi_pos(paths) {
        if let Value::Array(items) = base[m] {
            proof {
                assert(b[m as int] == *base@[m as int]);
            }
            let mut out: Vec<Vec<&'a Value>> = Vec::new();
            let mut i: usize = 0;
            while i < items.len()
                invariant
                    i <= items@.len(),
                    m < base@.len(),
                    b == tuple(base@),
                    out@.len() == i,
                    forall|k: int|
                        0 <= k < i ==> tuple((#[trigger] out@[k])@) == b.update(
                            m as int,
                            items@[k],
                        ),
                decreases items@.len() - i,
            {
                let mut t = copy_tuple(&base);
                t.remove(m);
                t.insert(m, &items[i]);
                proof {
                    assert(tuple(t@) =~= b.update(m as int, items@[i as int]));
                }
                out.push(t);
                i = i + 1;
            }
            proof {
                assert(tuples(out@) =~= value_tuples(b, views(paths@)));
            }
            return out;
        }
    }
    let mut out: Vec<Vec<&'a Value>> = Vec::new();
    out.push(base);
    proof {
        assert(tuples(out@) =~= seq![b]);
        if multi_from(views(paths@), 0) < paths@.len() {
            let m = multi_from(views(paths@), 0);
            lemma_multi_from(views(paths@), 0);
            assert(b[m] == *base@[m]);
        }
    }
    out
}

proof fn lemma_multi_from(paths: Seq<Seq<char>>, i: int)
    requires
        0 <= i <= paths.len(),
    ensures
        i <= multi_from(paths, i) <= paths.len(),
    decreases paths.len() - i,
{
    if i < paths.len() && !crate::ddl_index::is_multikey(paths[i]) {
        lemma_multi_from(paths, i + 1);
    }
}

} // verus!
