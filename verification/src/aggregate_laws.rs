//! What the aggregates of a group come to, in terms of the values that an
//! expression has on the group's rows.

use vstd::prelude::*;

use crate::aggregate::aggregate_value;
use crate::aggregate::all_ints;
use crate::aggregate::comparison;
use crate::aggregate::edge_value;
use crate::aggregate::extreme;
use crate::aggregate::int_total;
use crate::aggregate::row_time;
use crate::aggregate::single_rows;
use crate::aggregate::values_of;
use crate::aggregate::wrapped;
use crate::aggregate::AggOutcomeView;
use crate::ast::AggArg;
use crate::ast::AggFunc;
use crate::ast::Expr;
use crate::error::EngineError;
use crate::error::ErrorView;
use crate::execute::encoding;
use crate::execute::evaluated;
use crate::model::value_view;
use crate::model::Fields;
use crate::model::ValueView;
use crate::order::Rank;
use crate::results::deduped;
use crate::select_laws::dedup_keeps_the_first_of_each;
use crate::select_laws::is_first_of_its_kind;
use crate::value::Document;
use crate::value::Value;

verus! {

/// Whether an expression has a value other than `NULL` on a row.
pub open spec fn has_value<F: Fn(&Expr, &Document) -> Result<Value, EngineError>>(
    f: F,
    e: Expr,
    m: Fields,
) -> bool {
    evaluated(f, e, m) is Ok && !(evaluated(f, e, m)->Ok_0 is Null)
}

/// The rows on which an expression has a value.
pub open spec fn rows_with<F: Fn(&Expr, &Document) -> Result<Value, EngineError>>(
    f: F,
    e: Expr,
    ms: Seq<Fields>,
) -> Seq<Fields> {
    ms.filter(|m: Fields| has_value(f, e, m))
}

/// The values of an expression on the rows on which it has one.
pub open spec fn present<F: Fn(&Expr, &Document) -> Result<Value, EngineError>>(
    f: F,
    e: Expr,
    ms: Seq<Fields>,
) -> Seq<Value> {
    rows_with(f, e, ms).map_values(|m: Fields| evaluated(f, e, m)->Ok_0)
}

/// Whether an expression can be evaluated on every row.
pub open spec fn evaluates<F: Fn(&Expr, &Document) -> Result<Value, EngineError>>(
    f: F,
    e: Expr,
    ms: Seq<Fields>,
) -> bool {
    forall|i: int| 0 <= i < ms.len() ==> evaluated(f, e, #[trigger] ms[i]) is Ok
}

/// An aggregate takes in the values of its expression on every row but those
/// that are `NULL`, in the order of the rows.
pub proof fn values_are_those_present<F: Fn(&Expr, &Document) -> Result<Value, EngineError>>(
    f: F,
    e: Expr,
    ms: Seq<Fields>,
)
    ensures
        values_of(f, e, ms) is Ok <==> evaluates(f, e, ms),
        values_of(f, e, ms) matches Ok(vs) ==> vs == present(f, e, ms),
    decreases ms.len(),
{
    reveal(Seq::filter);
    if ms.len() == 0 {
        assert(present(f, e, ms) =~= Seq::<Value>::empty());
    } else {
        let init = ms.drop_last();
        let n = ms.len() - 1;
        values_are_those_present(f, e, init);
        if values_of(f, e, init) is Err {
            let i = choose|i: int| 0 <= i < n && !(evaluated(f, e, #[trigger] init[i]) is Ok);
            assert(!(evaluated(f, e, ms[i]) is Ok));
        } else {
            assert forall|i: int| 0 <= i < n implies evaluated(f, e, #[trigger] ms[i]) is Ok by {
                assert(evaluated(f, e, init[i]) is Ok);
            }
            assert(ms[n] == ms.last());
        }
        if values_of(f, e, ms) is Ok {
            let vs = values_of(f, e, ms)->Ok_0;
            assert(vs =~= present(f, e, ms));
        }
    }
}

proof fn lemma_present_adds<F: Fn(&Expr, &Document) -> Result<Value, EngineError>>(
    f: F,
    e: Expr,
    a: Seq<Fields>,
    b: Seq<Fields>,
)
    ensures
        rows_with(f, e, a + b) == rows_with(f, e, a) + rows_with(f, e, b),
        present(f, e, a + b) == present(f, e, a) + present(f, e, b),
        evaluates(f, e, a + b) <==> evaluates(f, e, a) && evaluates(f, e, b),
{
    Seq::filter_distributes_over_add(a, b, |m: Fields| has_value(f, e, m));
    assert(present(f, e, a + b) =~= present(f, e, a) + present(f, e, b));
    let both = a + b;
    if evaluates(f, e, both) {
        assert forall|i: int| 0 <= i < a.len() implies evaluated(f, e, #[trigger] a[i]) is Ok by {
            assert(both[i] == a[i]);
        }
        assert forall|i: int| 0 <= i < b.len() implies evaluated(f, e, #[trigger] b[i]) is Ok by {
            assert(both[a.len() + i] == b[i]);
        }
    }
}

/// Whether an aggregate came to an integer.
pub open spec fn comes_to(r: Result<AggOutcomeView, ErrorView>, n: int) -> bool {
    r matches Ok(AggOutcomeView::Value(ValueView::Int(i))) && i == n
}

/// `COUNT(*)` is the number of the group's rows.
pub proof fn count_star_counts_rows<
    F: Fn(&Expr, &Document) -> Result<Value, EngineError>,
    K: Fn(&Vec<&Value>) -> Vec<u8>,
    C: Fn(&Value, &Value) -> Option<Rank>,
    T: Fn(&Value) -> Option<i64>,
>(f: F, k: K, c: C, t: T, ms: Seq<Fields>)
    requires
        ms.len() <= i64::MAX,
    ensures
        comes_to(aggregate_value(f, k, c, t, AggFunc::Count, AggArg::Star, ms), ms.len() as int),
{
}

/// `COUNT(expr)` is the number of the group's rows on which the expression has
/// a value other than `NULL`. It fails where the expression cannot be evaluated
/// on some row, and only there.
pub proof fn count_counts_the_values<
    F: Fn(&Expr, &Document) -> Result<Value, EngineError>,
    K: Fn(&Vec<&Value>) -> Vec<u8>,
    C: Fn(&Value, &Value) -> Option<Rank>,
    T: Fn(&Value) -> Option<i64>,
>(f: F, k: K, c: C, t: T, e: Box<Expr>, ms: Seq<Fields>)
    requires
        ms.len() <= i64::MAX,
    ensures
        aggregate_value(f, k, c, t, AggFunc::Count, AggArg::Expr(e), ms) is Ok <==> evaluates(
            f,
            *e,
            ms,
        ),
        evaluates(f, *e, ms) ==> comes_to(
            aggregate_value(f, k, c, t, AggFunc::Count, AggArg::Expr(e), ms),
            ms.filter(|m: Fields| has_value(f, *e, m)).len() as int,
        ),
{
    values_are_those_present(f, *e, ms);
    ms.lemma_filter_len(|m: Fields| has_value(f, *e, m));
}

/// `COUNT(expr)` over two groups put together is the sum of the counts over
/// each.
pub proof fn counts_add_up<
    F: Fn(&Expr, &Document) -> Result<Value, EngineError>,
    K: Fn(&Vec<&Value>) -> Vec<u8>,
    C: Fn(&Value, &Value) -> Option<Rank>,
    T: Fn(&Value) -> Option<i64>,
>(f: F, k: K, c: C, t: T, e: Box<Expr>, a: Seq<Fields>, b: Seq<Fields>, x: i64, y: i64)
    requires
        a.len() + b.len() <= i64::MAX,
        comes_to(aggregate_value(f, k, c, t, AggFunc::Count, AggArg::Expr(e), a), x as int),
        comes_to(aggregate_value(f, k, c, t, AggFunc::Count, AggArg::Expr(e), b), y as int),
    ensures
        comes_to(aggregate_value(f, k, c, t, AggFunc::Count, AggArg::Expr(e), a + b), x + y),
{
    count_counts_the_values(f, k, c, t, e, a);
    count_counts_the_values(f, k, c, t, e, b);
    count_counts_the_values(f, k, c, t, e, a + b);
    lemma_present_adds(f, *e, a, b);
}

/// Where an expression is `NULL` on no row, `COUNT(expr)` is `COUNT(*)`.
pub proof fn count_without_nulls_is_count_star<
    F: Fn(&Expr, &Document) -> Result<Value, EngineError>,
    K: Fn(&Vec<&Value>) -> Vec<u8>,
    C: Fn(&Value, &Value) -> Option<Rank>,
    T: Fn(&Value) -> Option<i64>,
>(f: F, k: K, c: C, t: T, e: Box<Expr>, ms: Seq<Fields>)
    requires
        ms.len() <= i64::MAX,
        forall|i: int| 0 <= i < ms.len() ==> has_value(f, *e, #[trigger] ms[i]),
    ensures
        aggregate_value(f, k, c, t, AggFunc::Count, AggArg::Expr(e), ms) == aggregate_value(
            f,
            k,
            c,
            t,
            AggFunc::Count,
            AggArg::Star,
            ms,
        ),
{
    count_counts_the_values(f, k, c, t, e, ms);
    lemma_filter_keeps_all(ms, |m: Fields| has_value(f, *e, m));
}

proof fn lemma_filter_keeps_all<T>(s: Seq<T>, p: spec_fn(T) -> bool)
    requires
        forall|i: int| 0 <= i < s.len() ==> p(#[trigger] s[i]),
    ensures
        s.filter(p) == s,
    decreases s.len(),
{
    reveal(Seq::filter);
    if s.len() > 0 {
        assert forall|i: int| 0 <= i < s.drop_last().len() implies p(
            #[trigger] s.drop_last()[i],
        ) by {
            assert(p(s[i]));
        }
        lemma_filter_keeps_all(s.drop_last(), p);
        assert(p(s[s.len() - 1]));
        assert(s.filter(p) =~= s);
    } else {
        assert(s.filter(p) =~= s);
    }
}

/// The encodings of values, each as a key of its own.
pub open spec fn encodings<K: Fn(&Vec<&Value>) -> Vec<u8>>(k: K, vs: Seq<Value>) -> Seq<Seq<u8>> {
    vs.map_values(|v: Value| encoding(k, seq![value_view(v)]))
}

/// `COUNT(DISTINCT expr)` is the number of different encodings that the values
/// of the expression have; of the other aggregates none takes `DISTINCT`.
pub proof fn distinct_counts_the_different_values<
    F: Fn(&Expr, &Document) -> Result<Value, EngineError>,
    K: Fn(&Vec<&Value>) -> Vec<u8>,
    C: Fn(&Value, &Value) -> Option<Rank>,
    T: Fn(&Value) -> Option<i64>,
>(f: F, k: K, c: C, t: T, func: AggFunc, e: Box<Expr>, ms: Seq<Fields>)
    requires
        ms.len() <= i64::MAX,
    ensures
        aggregate_value(f, k, c, t, func, AggArg::Distinct(e), ms) is Ok <==> func == AggFunc::Count
            && evaluates(f, *e, ms),
        aggregate_value(f, k, c, t, func, AggArg::Distinct(e), ms) is Ok ==> comes_to(
            aggregate_value(f, k, c, t, func, AggArg::Distinct(e), ms),
            encodings(k, present(f, *e, ms)).to_set().len() as int,
        ),
        aggregate_value(f, k, c, t, func, AggArg::ApproxDistinct(e), ms) == aggregate_value(
            f,
            k,
            c,
            t,
            func,
            AggArg::Distinct(e),
            ms,
        ),
{
    values_are_those_present(f, *e, ms);
    ms.lemma_filter_len(|m: Fields| has_value(f, *e, m));
    let vs = present(f, *e, ms);
    let rows = single_rows(vs);
    let qs = dedup_keeps_the_first_of_each(k, rows);
    let d = deduped(k, rows);
    let keys = Seq::new(d.len(), |i: int| encoding(k, d[i]));
    let all = encodings(k, vs);
    assert(forall|i: int| 0 <= i < vs.len() ==> #[trigger] all[i] == encoding(k, rows[i]));
    assert(keys.no_duplicates()) by {
        assert forall|i: int, j: int| 0 <= i < j < keys.len() implies keys[i] != keys[j] by {
            assert(qs.contains(qs[j]));
            assert(is_first_of_its_kind(k, rows, qs[j]));
            assert(d[i] == rows[qs[i]] && d[j] == rows[qs[j]]);
            assert(qs[i] < qs[j]);
        }
    }
    assert(keys.to_set() =~= all.to_set()) by {
        assert forall|x: Seq<u8>| keys.to_set().contains(x) implies all.to_set().contains(x) by {
            let i = choose|i: int| 0 <= i < keys.len() && keys[i] == x;
            assert(d[i] == rows[qs[i]]);
            assert(all[qs[i]] == x);
        }
        assert forall|x: Seq<u8>| all.to_set().contains(x) implies keys.to_set().contains(x) by {
            let j = choose|j: int| 0 <= j < all.len() && all[j] == x;
            let i = lemma_first_of_kind(k, rows, j);
            assert(qs.contains(i));
            let p = choose|p: int| 0 <= p < qs.len() && qs[p] == i;
            assert(d[p] == rows[qs[p]]);
            assert(keys[p] == x);
        }
    }
    keys.unique_seq_to_set();
    assert(d.len() == qs.len());
    lemma_go_up_len(qs, rows.len() as int);
}

proof fn lemma_go_up_len(qs: Seq<int>, n: int)
    requires
        crate::select_laws::go_up(qs, n),
        n >= 0,
    ensures
        qs.len() <= n,
    decreases n,
{
    if qs.len() > 0 {
        let init = qs.drop_last();
        let last = qs.last();
        assert(qs[qs.len() - 1] == last);
        assert forall|i: int| 0 <= i < init.len() implies 0 <= #[trigger] init[i] < n - 1 by {
            assert(qs[i] < qs[qs.len() - 1]);
        }
        assert forall|i: int, j: int| 0 <= i < j < init.len() implies #[trigger] init[i]
            < #[trigger] init[j] by {
            assert(qs[i] < qs[j]);
        }
        lemma_go_up_len(init, n - 1);
    }
}

/// The first row of a row's kind.
proof fn lemma_first_of_kind<K: Fn(&Vec<&Value>) -> Vec<u8>>(
    k: K,
    rows: Seq<Seq<ValueView>>,
    j: int,
) -> (i: int)
    requires
        0 <= j < rows.len(),
    ensures
        0 <= i <= j,
        encoding(k, rows[i]) == encoding(k, rows[j]),
        is_first_of_its_kind(k, rows, i),
    decreases j,
{
    if is_first_of_its_kind(k, rows, j) {
        j
    } else {
        let p = choose|p: int| 0 <= p < j && encoding(k, #[trigger] rows[p]) == encoding(k, rows[j]);
        lemma_first_of_kind(k, rows, p)
    }
}

/// Wrapping round changes nothing in range, and otherwise moves by whole turns
/// of 64 bits into range.
pub proof fn wrapping_keeps_the_remainder(n: int)
    ensures
        i64::MIN <= wrapped(n) <= i64::MAX,
        i64::MIN <= n <= i64::MAX ==> wrapped(n) == n,
        (wrapped(n) - n) % 0x1_0000_0000_0000_0000 == 0,
{
    let m = 0x1_0000_0000_0000_0000;
    assert(0 <= n % m < m);
    assert((n % m - n) % m == 0) by (nonlinear_arith)
        requires
            m == 0x1_0000_0000_0000_0000,
    ;
    assert((n % m - m - n) % m == 0) by (nonlinear_arith)
        requires
            m == 0x1_0000_0000_0000_0000,
    ;
    if 0 <= n <= i64::MAX {
        assert(n % m == n) by (nonlinear_arith)
            requires
                0 <= n < m,
        ;
    } else if i64::MIN <= n < 0 {
        assert(n % m == n + m) by (nonlinear_arith)
            requires
                -m <= n < 0,
        ;
    }
}

/// The sum of integers.
pub open spec fn total(vs: Seq<Value>) -> int {
    vs.fold_left(0int, |acc: int, v: Value| acc + v->Int_0)
}

proof fn lemma_total(vs: Seq<Value>)
    requires
        all_ints(vs),
    ensures
        int_total(vs) == total(vs),
    decreases vs.len(),
{
    if vs.len() > 0 {
        assert(vs[vs.len() - 1] is Int);
        let init = vs.drop_last();
        assert forall|i: int| 0 <= i < init.len() implies (#[trigger] init[i]) is Int by {
            assert(vs[i] is Int);
        }
        lemma_total(init);
        reveal_with_fuel(Seq::fold_left, 2);
    } else {
        reveal_with_fuel(Seq::fold_left, 2);
    }
}

/// `SUM(expr)` is `NULL` where there are no values. Of integers it is their
/// sum, by whole turns of 64 bits where that is out of range. Where there is
/// something else among them, all the values go into a floating-point sum.
pub proof fn sum_adds_the_values<
    F: Fn(&Expr, &Document) -> Result<Value, EngineError>,
    K: Fn(&Vec<&Value>) -> Vec<u8>,
    C: Fn(&Value, &Value) -> Option<Rank>,
    T: Fn(&Value) -> Option<i64>,
>(f: F, k: K, c: C, t: T, e: Box<Expr>, ms: Seq<Fields>)
    ensures
        ({
            let vs = present(f, *e, ms);
            let r = aggregate_value(f, k, c, t, AggFunc::Sum, AggArg::Expr(e), ms);
            &&& r is Ok <==> evaluates(f, *e, ms)
            &&& r is Ok && vs.len() == 0 ==> r->Ok_0 == AggOutcomeView::Value(ValueView::Null)
            &&& r is Ok && vs.len() > 0 && (forall|i: int|
                0 <= i < vs.len() ==> (#[trigger] vs[i]) is Int) ==> {
                &&& r->Ok_0 matches AggOutcomeView::Value(ValueView::Int(n)) && (n - total(vs))
                    % 0x1_0000_0000_0000_0000 == 0
                &&& i64::MIN <= total(vs) <= i64::MAX ==> comes_to(r, total(vs))
            }
            &&& r is Ok && (exists|i: int| 0 <= i < vs.len() && !((#[trigger] vs[i]) is Int))
                ==> r->Ok_0 == AggOutcomeView::Sum(vs)
        }),
{
    values_are_those_present(f, *e, ms);
    let vs = present(f, *e, ms);
    if all_ints(vs) {
        lemma_total(vs);
        wrapping_keeps_the_remainder(total(vs));
    }
}

/// `AVG(expr)` is `NULL` where there are no values, and else the mean of all of
/// them; a percentile is that of all of them.
pub proof fn means_take_in_every_value<
    F: Fn(&Expr, &Document) -> Result<Value, EngineError>,
    K: Fn(&Vec<&Value>) -> Vec<u8>,
    C: Fn(&Value, &Value) -> Option<Rank>,
    T: Fn(&Value) -> Option<i64>,
>(f: F, k: K, c: C, t: T, e: Box<Expr>, p: u16, ms: Seq<Fields>)
    requires
        evaluates(f, *e, ms),
    ensures
        ({
            let vs = present(f, *e, ms);
            &&& aggregate_value(f, k, c, t, AggFunc::Avg, AggArg::Expr(e), ms) == Ok::<
                AggOutcomeView,
                ErrorView,
            >(
                if vs.len() == 0 {
                    AggOutcomeView::Value(ValueView::Null)
                } else {
                    AggOutcomeView::Average(vs)
                },
            )
            &&& aggregate_value(f, k, c, t, AggFunc::Percentile(p), AggArg::Expr(e), ms) == Ok::<
                AggOutcomeView,
                ErrorView,
            >(AggOutcomeView::Percentile(p, vs))
        }),
{
    values_are_those_present(f, *e, ms);
}

/// Whether a comparison tells which of some values beats which: not both ways
/// round, and not beating carries over.
pub open spec fn orders_these<C: Fn(&Value, &Value) -> Option<Rank>>(
    c: C,
    vs: Seq<Value>,
    want: Rank,
) -> bool {
    &&& forall|i: int, j: int|
        #![trigger vs[i], vs[j]]
        0 <= i < vs.len() && 0 <= j < vs.len() && comparison(c, vs[i], vs[j]) == Some(want)
            ==> comparison(c, vs[j], vs[i]) != Some(want)
    &&& forall|i: int, j: int, l: int|
        #![trigger vs[i], vs[j], vs[l]]
        0 <= i < vs.len() && 0 <= j < vs.len() && 0 <= l < vs.len() && comparison(c, vs[j], vs[i])
            != Some(want) && comparison(c, vs[l], vs[j]) != Some(want) ==> comparison(c, vs[l], vs[i])
            != Some(want)
}

proof fn lemma_extreme<C: Fn(&Value, &Value) -> Option<Rank>>(c: C, vs: Seq<Value>, want: Rank)
    requires
        vs.len() > 0,
    ensures
        0 <= extreme(c, vs, want) < vs.len(),
        orders_these(c, vs, want) ==> {
            let p = extreme(c, vs, want);
            &&& forall|j: int| 0 <= j < vs.len() ==> comparison(c, #[trigger] vs[j], vs[p]) != Some(want)
            &&& forall|j: int| 0 <= j < p ==> comparison(c, vs[p], #[trigger] vs[j]) == Some(want)
        },
    decreases vs.len(),
{
    let n = vs.len() - 1;
    if n > 0 {
        let init = vs.drop_last();
        lemma_extreme(c, init, want);
        let b = extreme(c, init, want);
        let p = extreme(c, vs, want);
        assert(init[b] == vs[b]);
        if orders_these(c, vs, want) {
            assert(orders_these(c, init, want)) by {
                assert forall|i: int, j: int|
                    #![trigger init[i], init[j]]
                    0 <= i < init.len() && 0 <= j < init.len() && comparison(c, init[i], init[j])
                        == Some(want) implies comparison(c, init[j], init[i]) != Some(want) by {
                    assert(vs[i] == init[i] && vs[j] == init[j]);
                }
                assert forall|i: int, j: int, l: int|
                    #![trigger init[i], init[j], init[l]]
                    0 <= i < init.len() && 0 <= j < init.len() && 0 <= l < init.len()
                        && comparison(c, init[j], init[i]) != Some(want) && comparison(
                        c,
                        init[l],
                        init[j],
                    ) != Some(want) implies comparison(c, init[l], init[i]) != Some(want) by {
                    assert(vs[i] == init[i] && vs[j] == init[j] && vs[l] == init[l]);
                }
            }
            assert forall|j: int| 0 <= j < vs.len() implies comparison(c, #[trigger] vs[j], vs[p])
                != Some(want) by {
                if j < n {
                    assert(init[j] == vs[j]);
                    assert(comparison(c, init[j], init[b]) != Some(want));
                    if p == n {
                        assert(comparison(c, vs[n], vs[b]) == Some(want));
                        assert(comparison(c, vs[b], vs[n]) != Some(want));
                        assert(comparison(c, vs[j], vs[n]) != Some(want));
                    }
                } else if p == n {
                    if comparison(c, vs[n], vs[n]) == Some(want) {
                        assert(comparison(c, vs[n], vs[n]) != Some(want));
                    }
                }
            }
            assert forall|j: int| 0 <= j < p implies comparison(c, vs[p], #[trigger] vs[j]) == Some(
                want,
            ) by {
                assert(init[j] == vs[j]);
                if p == n {
                    if comparison(c, vs[n], vs[j]) != Some(want) {
                        assert(comparison(c, init[j], init[b]) != Some(want));
                        assert(comparison(c, vs[n], vs[b]) != Some(want));
                    }
                } else {
                    assert(comparison(c, init[b], init[j]) == Some(want));
                }
            }
        }
    } else {
        if orders_these(c, vs, want) {
            assert(comparison(c, vs[0], vs[0]) != Some(want)) by {
                if comparison(c, vs[0], vs[0]) == Some(want) {
                    assert(comparison(c, vs[0], vs[0]) != Some(want));
                }
            }
        }
    }
}

/// `MIN(expr)` and `MAX(expr)` are `NULL` where there are no values, and else
/// one of the values: one that no other lies below, or above, and the first of
/// those that tie.
pub proof fn extremes_are_beaten_by_none<
    F: Fn(&Expr, &Document) -> Result<Value, EngineError>,
    K: Fn(&Vec<&Value>) -> Vec<u8>,
    C: Fn(&Value, &Value) -> Option<Rank>,
    T: Fn(&Value) -> Option<i64>,
>(f: F, k: K, c: C, t: T, e: Box<Expr>, most: bool, ms: Seq<Fields>) -> (p: int)
    requires
        evaluates(f, *e, ms),
    ensures
        ({
            let vs = present(f, *e, ms);
            let func = if most {
                AggFunc::Max
            } else {
                AggFunc::Min
            };
            let want = if most {
                Rank::Greater
            } else {
                Rank::Less
            };
            let r = aggregate_value(f, k, c, t, func, AggArg::Expr(e), ms);
            &&& vs.len() == 0 ==> r == Ok::<AggOutcomeView, ErrorView>(
                AggOutcomeView::Value(ValueView::Null),
            )
            &&& vs.len() > 0 ==> {
                &&& 0 <= p < vs.len()
                &&& r == Ok::<AggOutcomeView, ErrorView>(AggOutcomeView::Value(value_view(vs[p])))
                &&& orders_these(c, vs, want) ==> (forall|j: int|
                    0 <= j < vs.len() ==> comparison(c, #[trigger] vs[j], vs[p]) != Some(want)) && (
                forall|j: int| 0 <= j < p ==> comparison(c, vs[p], #[trigger] vs[j]) == Some(want))
            }
        }),
{
    values_are_those_present(f, *e, ms);
    let vs = present(f, *e, ms);
    let want = if most {
        Rank::Greater
    } else {
        Rank::Less
    };
    if vs.len() > 0 {
        lemma_extreme(c, vs, want);
    }
    extreme(c, vs, want)
}

/// Whether the row at `p` holds the earliest, or the latest, of the values, and
/// is the first of the rows at that time.
pub open spec fn is_edge<
    F: Fn(&Expr, &Document) -> Result<Value, EngineError>,
    T: Fn(&Value) -> Option<i64>,
>(f: F, t: T, e: Expr, want_last: bool, ms: Seq<Fields>, p: int) -> bool {
    &&& 0 <= p < ms.len()
    &&& has_value(f, e, ms[p])
    &&& forall|j: int|
        0 <= j < ms.len() && has_value(f, e, #[trigger] ms[j]) ==> {
            let there = row_time(t, ms[j])->0;
            let here = row_time(t, ms[p])->0;
            if want_last {
                if j < p {
                    there < here
                } else {
                    there <= here
                }
            } else {
                if j < p {
                    there > here
                } else {
                    there >= here
                }
            }
        }
}

/// Whether every row has a time and a value of the expression.
pub open spec fn all_timed<
    F: Fn(&Expr, &Document) -> Result<Value, EngineError>,
    T: Fn(&Value) -> Option<i64>,
>(f: F, t: T, e: Expr, ms: Seq<Fields>) -> bool {
    forall|i: int|
        0 <= i < ms.len() ==> row_time(t, #[trigger] ms[i]) is Some && evaluated(f, e, ms[i]) is Ok
}

proof fn lemma_edge<
    F: Fn(&Expr, &Document) -> Result<Value, EngineError>,
    T: Fn(&Value) -> Option<i64>,
>(f: F, t: T, e: Expr, want_last: bool, ms: Seq<Fields>) -> (p: int)
    ensures
        edge_value(f, t, e, want_last, ms) is Ok <==> all_timed(f, t, e, ms),
        edge_value(f, t, e, want_last, ms) matches Ok(None) ==> forall|j: int|
            0 <= j < ms.len() ==> !has_value(f, e, #[trigger] ms[j]),
        edge_value(f, t, e, want_last, ms) matches Ok(Some(b)) ==> is_edge(
            f,
            t,
            e,
            want_last,
            ms,
            p,
        ) && row_time(t, ms[p]) == Some(b.0) && evaluated(f, e, ms[p]) == Ok::<Value, EngineError>(
            b.1,
        ),
    decreases ms.len(),
{
    if ms.len() == 0 {
        0
    } else {
        let init = ms.drop_last();
        let n = ms.len() - 1;
        let q = lemma_edge(f, t, e, want_last, init);
        assert(forall|i: int| 0 <= i < n ==> #[trigger] ms[i] == init[i]);
        if edge_value(f, t, e, want_last, init) is Err {
            let i = choose|i: int|
                0 <= i < n && !(row_time(t, #[trigger] init[i]) is Some && evaluated(f, e, init[i]) is Ok);
            assert(!(row_time(t, ms[i]) is Some && evaluated(f, e, ms[i]) is Ok));
            0
        } else {
            assert forall|i: int| 0 <= i < n implies row_time(t, #[trigger] ms[i]) is Some
                && evaluated(f, e, ms[i]) is Ok by {
                assert(row_time(t, init[i]) is Some && evaluated(f, e, init[i]) is Ok);
            }
            assert(ms[n] == ms.last());
            if edge_value(f, t, e, want_last, ms) is Err {
                assert(!(row_time(t, ms[n]) is Some && evaluated(f, e, ms[n]) is Ok));
                0
            } else {
                let before = edge_value(f, t, e, want_last, init)->Ok_0;
                let after = edge_value(f, t, e, want_last, ms)->Ok_0;
                let p = if after == before && !(has_value(f, e, ms[n]) && before is None) && !(
                has_value(f, e, ms[n]) && (if want_last {
                    row_time(t, ms[n])->0 > (before->0).0
                } else {
                    row_time(t, ms[n])->0 < (before->0).0
                })) {
                    q
                } else {
                    n
                };
                if after is Some {
                    assert forall|j: int|
                        0 <= j < ms.len() && has_value(f, e, #[trigger] ms[j]) implies ({
                        let there = row_time(t, ms[j])->0;
                        let here = row_time(t, ms[p])->0;
                        if want_last {
                            if j < p {
                                there < here
                            } else {
                                there <= here
                            }
                        } else {
                            if j < p {
                                there > here
                            } else {
                                there >= here
                            }
                        }
                    }) by {
                        if j < n {
                            assert(has_value(f, e, init[j]));
                        }
                    }
                } else {
                    assert forall|j: int| 0 <= j < ms.len() implies !has_value(
                        f,
                        e,
                        #[trigger] ms[j],
                    ) by {
                        if j < n {
                            assert(!has_value(f, e, init[j]));
                        }
                    }
                }
                p
            }
        }
    }
}

/// `FIRST(expr)` and `LAST(expr)` are the value of the row with the earliest,
/// or the latest, time among those that have one, `NULL` where none has. Every
/// row must have a time.
pub proof fn edges_are_earliest_and_latest<
    F: Fn(&Expr, &Document) -> Result<Value, EngineError>,
    K: Fn(&Vec<&Value>) -> Vec<u8>,
    C: Fn(&Value, &Value) -> Option<Rank>,
    T: Fn(&Value) -> Option<i64>,
>(f: F, k: K, c: C, t: T, e: Box<Expr>, want_last: bool, ms: Seq<Fields>) -> (p: int)
    ensures
        ({
            let func = if want_last {
                AggFunc::Last
            } else {
                AggFunc::First
            };
            let r = aggregate_value(f, k, c, t, func, AggArg::Expr(e), ms);
            &&& r is Ok <==> all_timed(f, t, *e, ms)
            &&& r is Ok && present(f, *e, ms).len() == 0 ==> r->Ok_0 == AggOutcomeView::Value(
                ValueView::Null,
            )
            &&& r is Ok && present(f, *e, ms).len() > 0 ==> is_edge(f, t, *e, want_last, ms, p)
                && r->Ok_0 == AggOutcomeView::Value(value_view(evaluated(f, *e, ms[p])->Ok_0))
        }),
{
    values_are_those_present(f, *e, ms);
    let p = lemma_edge(f, t, *e, want_last, ms);
    let pred = |m: Fields| has_value(f, *e, m);
    if all_timed(f, t, *e, ms) {
        assert(evaluates(f, *e, ms));
    }
    if edge_value(f, t, *e, want_last, ms) matches Ok(Some(b)) {
        lemma_filter_has(ms, pred, p);
    }
    if edge_value(f, t, *e, want_last, ms) matches Ok(None) {
        lemma_filter_none(ms, pred);
    }
    p
}

proof fn lemma_filter_has<T>(s: Seq<T>, p: spec_fn(T) -> bool, i: int)
    requires
        0 <= i < s.len(),
        p(s[i]),
    ensures
        s.filter(p).len() > 0,
    decreases s.len(),
{
    reveal(Seq::filter);
    if i < s.len() - 1 {
        lemma_filter_has(s.drop_last(), p, i);
    }
}

proof fn lemma_filter_none<T>(s: Seq<T>, p: spec_fn(T) -> bool)
    requires
        forall|i: int| 0 <= i < s.len() ==> !p(#[trigger] s[i]),
    ensures
        s.filter(p).len() == 0,
    decreases s.len(),
{
    reveal(Seq::filter);
    if s.len() > 0 {
        assert forall|i: int| 0 <= i < s.drop_last().len() implies !p(
            #[trigger] s.drop_last()[i],
        ) by {
            assert(!p(s[i]));
        }
        lemma_filter_none(s.drop_last(), p);
        assert(!p(s[s.len() - 1]));
    }
}

} // verus!
