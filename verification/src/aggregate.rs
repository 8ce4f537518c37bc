//! Aggregates over the documents of a group. Where an aggregate ends in
//! floating point, what is computed here are the values that go into it.

use vstd::prelude::*;

use crate::ast::AggArg;
use crate::ast::AggFunc;
use crate::ast::Expr;
use crate::ast::Select;
use crate::error::type_error;
use crate::error::unsupported;
use crate::error::EngineError;
use crate::error::ErrorView;
use crate::execute::decides;
use crate::execute::decided;
use crate::execute::evaluate;
use crate::execute::evaluated;
use crate::execute::is_decider;
use crate::execute::is_encoder;
use crate::execute::is_evaluator;
use crate::execute::row_view;
use crate::execute::row_wf;
use crate::grouping::group_decided;
use crate::grouping::group_evaluated;
use crate::grouping::group_row;
use crate::grouping::group_tuple;
use crate::grouping::item_exprs;
use crate::grouping::refs_view;
use crate::model::copy_value;
use crate::model::doc_view;
use crate::model::doc_wf;
use crate::model::value_view;
use crate::model::value_wf;
use crate::model::Fields;
use crate::model::ValueView;
use crate::order::lemma_slot_for_is;
use crate::order::stable_sorted;
use crate::order::Rank;
use crate::results::dedup_rows;
use crate::results::deduped;
use crate::results::rows_view;
use crate::text::str_eq;
use crate::value::Document;
use crate::value::Value;

verus! {

/// The values of an expression on documents, without the `NULL`s.
pub open spec fn values_of<F: Fn(&Expr, &Document) -> Result<Value, EngineError>>(
    f: F,
    e: Expr,
    ms: Seq<Fields>,
) -> Result<Seq<Value>, EngineError>
    decreases ms.len(),
{
    if ms.len() == 0 {
        Ok(Seq::empty())
    } else {
        match values_of(f, e, ms.drop_last()) {
            Err(x) => Err(x),
            Ok(vs) => match evaluated(f, e, ms.last()) {
                Err(x) => Err(x),
                Ok(v) => if v is Null {
                    Ok(vs)
                } else {
                    Ok(vs.push(v))
                },
            },
        }
    }
}

proof fn lemma_values_fail<F: Fn(&Expr, &Document) -> Result<Value, EngineError>>(
    f: F,
    e: Expr,
    ms: Seq<Fields>,
    k: int,
)
    requires
        0 <= k <= ms.len(),
        values_of(f, e, ms.take(k)) is Err,
    ensures
        values_of(f, e, ms) == values_of(f, e, ms.take(k)),
    decreases ms.len() - k,
{
    if k == ms.len() {
        assert(ms.take(k) =~= ms);
    } else {
        assert(ms.take(k + 1).drop_last() =~= ms.take(k));
        lemma_values_fail(f, e, ms, k + 1);
    }
}

/// Collects the values of an expression on documents, without the `NULL`s.
fn collect_values<F: Fn(&Expr, &Document) -> Result<Value, EngineError>>(
    f: &F,
    e: &Expr,
    docs: &Vec<&Document>,
) -> (r: Result<Vec<Value>, EngineError>)
    requires
        is_evaluator(*f),
    ensures
        match r {
            Ok(vs) => values_of(*f, *e, refs_view(docs@)) == Ok::<Seq<Value>, EngineError>(vs@)
                && row_wf(vs@),
            Err(x) => values_of(*f, *e, refs_view(docs@)) == Err::<Seq<Value>, EngineError>(x),
        },
{
    let ghost ms = refs_view(docs@);
    let mut out: Vec<Value> = Vec::new();
    let mut i: usize = 0;
    proof {
        assert(ms.take(0) =~= Seq::<Fields>::empty());
        assert(out@ =~= Seq::<Value>::empty());
    }
    while i < docs.len()
        invariant
            is_evaluator(*f),
            ms == refs_view(docs@),
            row_wf(out@),
            i <= docs@.len(),
            values_of(*f, *e, ms.take(i as int)) == Ok::<Seq<Value>, EngineError>(out@),
        decreases docs@.len() - i,
    {
        proof {
            assert(ms.take(i + 1).drop_last() =~= ms.take(i as int));
            assert(ms.take(i + 1).last() == doc_view(*docs@[i as int]));
        }
        match evaluate(f, e, docs[i]) {
            Err(x) => {
                proof {
                    lemma_values_fail(*f, *e, ms, i + 1);
                }
                return Err(x);
            },
            Ok(v) => {
                if !v.is_null() {
                    out.push(v);
                }
            },
        }
        i = i + 1;
    }
    proof {
        assert(ms.take(ms.len() as int) =~= ms);
    }
    Ok(out)
}

/// A number brought into 64 signed bits by wrapping round.
pub open spec fn wrapped(n: int) -> int {
    let m = n % 0x1_0000_0000_0000_0000;
    if m < 0x8000_0000_0000_0000 {
        m
    } else {
        m - 0x1_0000_0000_0000_0000
    }
}

/// The sum of the integers among values.
pub open spec fn int_total(vs: Seq<Value>) -> int
    decreases vs.len(),
{
    if vs.len() == 0 {
        0
    } else {
        int_total(vs.drop_last()) + match vs.last() {
            Value::Int(n) => n as int,
            _ => 0,
        }
    }
}

/// Whether values are all integers.
pub open spec fn all_ints(vs: Seq<Value>) -> bool {
    forall|i: int| 0 <= i < vs.len() ==> (#[trigger] vs[i]) is Int
}

fn are_ints(vs: &Vec<Value>) -> (r: bool)
    ensures
        r == all_ints(vs@),
{
    let mut i: usize = 0;
    while i < vs.len()
        invariant
            i <= vs@.len(),
            forall|k: int| 0 <= k < i ==> (#[trigger] vs@[k]) is Int,
        decreases vs@.len() - i,
    {
        match &vs[i] {
            Value::Int(_) => {},
            _ => {
                proof {
                    assert(!(vs@[i as int] is Int));
                }
                return false;
            },
        }
        i = i + 1;
    }
    true
}

/// The wrapping sum of integers.
pub fn sum_ints(vs: &Vec<Value>) -> (r: i64)
    ensures
        r == wrapped(int_total(vs@)),
{
    let mut acc: i64 = 0;
    let mut i: usize = 0;
    proof {
        assert(vs@.take(0) =~= Seq::<Value>::empty());
    }
    while i < vs.len()
        invariant
            i <= vs@.len(),
            acc == wrapped(int_total(vs@.take(i as int))),
        decreases vs@.len() - i,
    {
        proof {
            assert(vs@.take(i + 1).drop_last() =~= vs@.take(i as int));
            assert(vs@.take(i + 1).last() == vs@[i as int]);
        }
        if let Value::Int(n) = &vs[i] {
            acc = acc.wrapping_add(*n);
        }
        i = i + 1;
    }
    proof {
        assert(vs@.take(vs@.len() as int) =~= vs@);
    }
    acc
}

/// What a comparison says of two values.
pub open spec fn comparison<C: Fn(&Value, &Value) -> Option<Rank>>(c: C, a: Value, b: Value) -> Option<
    Rank,
> {
    choose|r: Option<Rank>| call_ensures(c, (&a, &b), r)
}

/// Whether a function compares values, always the same way; it may find that
/// two cannot be compared.
pub open spec fn is_comparison<C: Fn(&Value, &Value) -> Option<Rank>>(c: C) -> bool {
    &&& forall|a: &Value, b: &Value| call_requires(c, (a, b))
    &&& forall|a: &Value, b: &Value, x: Option<Rank>, y: Option<Rank>|
        call_ensures(c, (a, b), x) && call_ensures(c, (a, b), y) ==> x == y
}

/// The place of the first value that no later one beats: a value beats the best
/// so far where the two compare as wanted.
pub open spec fn extreme<C: Fn(&Value, &Value) -> Option<Rank>>(c: C, vs: Seq<Value>, want: Rank) -> int
    decreases vs.len(),
{
    if vs.len() <= 1 {
        0
    } else {
        let best = extreme(c, vs.drop_last(), want);
        if comparison(c, vs.last(), vs[best]) == Some(want) {
            vs.len() - 1
        } else {
            best
        }
    }
}

proof fn lemma_extreme_range<C: Fn(&Value, &Value) -> Option<Rank>>(c: C, vs: Seq<Value>, want: Rank)
    requires
        vs.len() > 0,
    ensures
        0 <= extreme(c, vs, want) < vs.len(),
    decreases vs.len(),
{
    if vs.len() > 1 {
        lemma_extreme_range(c, vs.drop_last(), want);
    }
}

/// The least or the greatest value, `NULL` of none.
pub fn reduce_extreme<C: Fn(&Value, &Value) -> Option<Rank>>(c: &C, values: Vec<Value>, want: Rank) -> (r:
    Value)
    requires
        is_comparison(*c),
    ensures
        r == (if values@.len() == 0 {
            Value::Null
        } else {
            values@[extreme(*c, values@, want)]
        }),
{
    if values.len() == 0 {
        return Value::Null;
    }
    let mut best: usize = 0;
    let mut i: usize = 1;
    proof {
        assert(extreme(*c, values@.take(1), want) == 0);
    }
    while i < values.len()
        invariant
            is_comparison(*c),
            1 <= i <= values@.len(),
            best < i,
            best == extreme(*c, values@.take(i as int), want),
        decreases values@.len() - i,
    {
        let said = c(&values[i], &values[best]);
        proof {
            assert(call_ensures(*c, (&values@[i as int], &values@[best as int]), said));
            assert(values@.take(i + 1).drop_last() =~= values@.take(i as int));
            assert(values@.take(i + 1).last() == values@[i as int]);
            assert(values@.take(i + 1)[best as int] == values@[best as int]);
        }
        if let Some(rank) = said {
            if rank == want {
                best = i;
            }
        }
        i = i + 1;
    }
    proof {
        assert(values@.take(values@.len() as int) =~= values@);
    }
    let mut list = values;
    list.remove(best)
}

/// What a call gave for a value that holds `v`.
pub open spec fn gives_time<T: Fn(&Value) -> Option<i64>>(t: T, v: ValueView, r: Option<i64>) -> bool {
    exists|x: Value| #[trigger] call_ensures(t, (&x,), r) && value_view(x) == v
}

/// Whether a function reads times, always the same from values that hold the
/// same.
pub open spec fn is_clock_reader<T: Fn(&Value) -> Option<i64>>(t: T) -> bool {
    &&& forall|v: &Value| call_requires(t, (v,))
    &&& forall|a: &Value, b: &Value, x: Option<i64>, y: Option<i64>|
        #![trigger call_ensures(t, (a,), x), call_ensures(t, (b,), y)]
        value_view(*a) == value_view(*b) && call_ensures(t, (a,), x) && call_ensures(t, (b,), y)
            ==> x == y
}

/// The time of a row: what its `ts` field says.
pub open spec fn row_time<T: Fn(&Value) -> Option<i64>>(t: T, m: Fields) -> Option<i64> {
    if m.dom().contains("ts"@) {
        choose|r: Option<i64>| gives_time(t, m["ts"@], r)
    } else {
        None
    }
}

fn time_of_row<T: Fn(&Value) -> Option<i64>>(t: &T, doc: &Document) -> (r: Option<i64>)
    requires
        is_clock_reader(*t),
        doc_wf(*doc),
    ensures
        r == row_time(*t, doc_view(*doc)),
{
    match doc.field("ts") {
        None => None,
        Some(v) => {
            let r = t(v);
            proof {
                let m = doc_view(*doc)["ts"@];
                assert(call_ensures(*t, (v,), r));
                assert(gives_time(*t, m, r));
                let c = choose|x: Option<i64>| gives_time(*t, m, x);
                assert(gives_time(*t, m, c));
                let other = choose|x: Value| #[trigger] call_ensures(*t, (&x,), c) && value_view(x)
                    == m;
                assert(call_ensures(*t, (&other,), c));
            }
            r
        },
    }
}

/// The earliest or latest value that is not `NULL`, with its time; or the
/// refusal of a row without a time. Equal times leave the first.
pub open spec fn edge_value<
    F: Fn(&Expr, &Document) -> Result<Value, EngineError>,
    T: Fn(&Value) -> Option<i64>,
>(f: F, t: T, e: Expr, want_last: bool, ms: Seq<Fields>) -> Result<
    Option<(i64, Value)>,
    ErrorView,
>
    decreases ms.len(),
{
    if ms.len() == 0 {
        Ok(None)
    } else {
        match edge_value(f, t, e, want_last, ms.drop_last()) {
            Err(x) => Err(x),
            Ok(best) => match row_time(t, ms.last()) {
                None => Err(
                    ErrorView::Type("first()/last() require a `ts` column on every row"@),
                ),
                Some(ts) => match evaluated(f, e, ms.last()) {
                    Err(x) => Err(x@),
                    Ok(v) => {
                        let better = match best {
                            None => true,
                            Some((b, _)) => if want_last {
                                ts > b
                            } else {
                                ts < b
                            },
                        };
                        if v is Null || !better {
                            Ok(best)
                        } else {
                            Ok(Some((ts, v)))
                        }
                    },
                },
            },
        }
    }
}

proof fn lemma_edge_fails<
    F: Fn(&Expr, &Document) -> Result<Value, EngineError>,
    T: Fn(&Value) -> Option<i64>,
>(f: F, t: T, e: Expr, want_last: bool, ms: Seq<Fields>, k: int)
    requires
        0 <= k <= ms.len(),
        edge_value(f, t, e, want_last, ms.take(k)) is Err,
    ensures
        edge_value(f, t, e, want_last, ms) == edge_value(f, t, e, want_last, ms.take(k)),
    decreases ms.len() - k,
{
    if k == ms.len() {
        assert(ms.take(k) =~= ms);
    } else {
        assert(ms.take(k + 1).drop_last() =~= ms.take(k));
        lemma_edge_fails(f, t, e, want_last, ms, k + 1);
    }
}

fn find_edge<
    F: Fn(&Expr, &Document) -> Result<Value, EngineError>,
    T: Fn(&Value) -> Option<i64>,
>(f: &F, t: &T, e: &Expr, want_last: bool, docs: &Vec<&Document>) -> (r: Result<
    Option<(i64, Value)>,
    EngineError,
>)
    requires
        is_evaluator(*f),
        is_clock_reader(*t),
        refs_wf(docs@),
    ensures
        match r {
            Ok(best) => edge_value(*f, *t, *e, want_last, refs_view(docs@)) == Ok::<
                Option<(i64, Value)>,
                ErrorView,
            >(best) && (best matches Some(b) ==> value_wf(b.1)),
            Err(x) => edge_value(*f, *t, *e, want_last, refs_view(docs@)) == Err::<
                Option<(i64, Value)>,
                ErrorView,
            >(x@),
        },
{
    let ghost ms = refs_view(docs@);
    let mut best: Option<(i64, Value)> = None;
    let mut i: usize = 0;
    proof {
        assert(ms.take(0) =~= Seq::<Fields>::empty());
    }
    while i < docs.len()
        invariant
            is_evaluator(*f),
            is_clock_reader(*t),
            refs_wf(docs@),
            ms == refs_view(docs@),
            i <= docs@.len(),
            best matches Some(b) ==> value_wf(b.1),
            edge_value(*f, *t, *e, want_last, ms.take(i as int)) == Ok::<
                Option<(i64, Value)>,
                ErrorView,
            >(best),
        decreases docs@.len() - i,
    {
        proof {
            assert(ms.take(i + 1).drop_last() =~= ms.take(i as int));
            assert(ms.take(i + 1).last() == doc_view(*docs@[i as int]));
            assert(doc_wf(*docs@[i as int]));
        }
        let ts: i64 = match time_of_row(t, docs[i]) {
            None => {
                proof {
                    lemma_edge_fails(*f, *t, *e, want_last, ms, i + 1);
                }
                return Err(type_error("first()/last() require a `ts` column on every row"));
            },
            Some(ts) => ts,
        };
        let v = match evaluate(f, e, docs[i]) {
            Err(x) => {
                proof {
                    lemma_edge_fails(*f, *t, *e, want_last, ms, i + 1);
                }
                return Err(x);
            },
            Ok(v) => v,
        };
        let better: bool = match &best {
            None => true,
            Some(b) => if want_last {
                ts > b.0
            } else {
                ts < b.0
            },
        };
        if !v.is_null() && better {
            best = Some((ts, v));
        }
        i = i + 1;
    }
    proof {
        assert(ms.take(ms.len() as int) =~= ms);
    }
    Ok(best)
}

/// Whether documents that are referred to have their fields in order.
pub open spec fn refs_wf(docs: Seq<&Document>) -> bool {
    forall|i: int| 0 <= i < docs.len() ==> doc_wf(*(#[trigger] docs[i]))
}

/// What an aggregate comes to: a value, or the numbers that a floating-point
/// result is computed from.
pub enum AggOutcome {
    Value(Value),
    /// The sum of these.
    Sum(Vec<Value>),
    /// The mean of these.
    Average(Vec<Value>),
    /// A percentile, in basis points, of these.
    Percentile(u16, Vec<Value>),
    /// The change of a counter or gauge over the group's rows.
    Change,
}

/// What an aggregate comes to, by what it holds.
pub enum AggOutcomeView {
    Value(ValueView),
    Sum(Seq<Value>),
    Average(Seq<Value>),
    Percentile(u16, Seq<Value>),
    Change,
}

impl View for AggOutcome {
    type V = AggOutcomeView;

    open spec fn view(&self) -> AggOutcomeView {
        match *self {
            AggOutcome::Value(v) => AggOutcomeView::Value(value_view(v)),
            AggOutcome::Sum(vs) => AggOutcomeView::Sum(vs@),
            AggOutcome::Average(vs) => AggOutcomeView::Average(vs@),
            AggOutcome::Percentile(p, vs) => AggOutcomeView::Percentile(p, vs@),
            AggOutcome::Change => AggOutcomeView::Change,
        }
    }
}

/// Values as rows of one column.
pub open spec fn single_rows(vs: Seq<Value>) -> Seq<Seq<ValueView>> {
    vs.map_values(|v: Value| seq![value_view(v)])
}

/// What `SUM` comes to: `NULL` of nothing, the wrapping sum of integers, and
/// otherwise a floating-point sum.
pub open spec fn summed(vs: Seq<Value>) -> AggOutcomeView {
    if vs.len() == 0 {
        AggOutcomeView::Value(ValueView::Null)
    } else if all_ints(vs) {
        AggOutcomeView::Value(ValueView::Int(wrapped(int_total(vs)) as i64))
    } else {
        AggOutcomeView::Sum(vs)
    }
}

/// What an aggregate over an expression's values comes to.
pub open spec fn aggregate_of<
    F: Fn(&Expr, &Document) -> Result<Value, EngineError>,
    C: Fn(&Value, &Value) -> Option<Rank>,
    T: Fn(&Value) -> Option<i64>,
>(f: F, c: C, t: T, func: AggFunc, e: Expr, ms: Seq<Fields>) -> Result<
    AggOutcomeView,
    ErrorView,
> {
    match values_of(f, e, ms) {
        Err(x) => Err(x@),
        Ok(vs) => match func {
            AggFunc::Count => Ok(AggOutcomeView::Value(ValueView::Int(vs.len() as i64))),
            AggFunc::Sum => Ok(summed(vs)),
            AggFunc::Avg => Ok(
                if vs.len() == 0 {
                    AggOutcomeView::Value(ValueView::Null)
                } else {
                    AggOutcomeView::Average(vs)
                },
            ),
            AggFunc::Min => Ok(extreme_of(c, vs, Rank::Less)),
            AggFunc::Max => Ok(extreme_of(c, vs, Rank::Greater)),
            AggFunc::Rate => Ok(AggOutcomeView::Change),
            AggFunc::Increase => Ok(AggOutcomeView::Change),
            AggFunc::Delta => Ok(AggOutcomeView::Change),
            AggFunc::Percentile(p) => Ok(AggOutcomeView::Percentile(p, vs)),
            AggFunc::First => edge_of(edge_value(f, t, e, false, ms)),
            AggFunc::Last => edge_of(edge_value(f, t, e, true, ms)),
        },
    }
}

/// The extreme value, `NULL` of none.
pub open spec fn extreme_of<C: Fn(&Value, &Value) -> Option<Rank>>(c: C, vs: Seq<Value>, want: Rank) -> AggOutcomeView {
    if vs.len() == 0 {
        AggOutcomeView::Value(ValueView::Null)
    } else {
        AggOutcomeView::Value(value_view(vs[extreme(c, vs, want)]))
    }
}

/// The value at an edge, `NULL` of none.
pub open spec fn edge_of(best: Result<Option<(i64, Value)>, ErrorView>) -> Result<
    AggOutcomeView,
    ErrorView,
> {
    match best {
        Err(x) => Err(x),
        Ok(None) => Ok(AggOutcomeView::Value(ValueView::Null)),
        Ok(Some((_, v))) => Ok(AggOutcomeView::Value(value_view(v))),
    }
}

/// What an aggregate over a group comes to.
pub open spec fn aggregate_value<
    F: Fn(&Expr, &Document) -> Result<Value, EngineError>,
    K: Fn(&Vec<&Value>) -> Vec<u8>,
    C: Fn(&Value, &Value) -> Option<Rank>,
    T: Fn(&Value) -> Option<i64>,
>(f: F, k: K, c: C, t: T, func: AggFunc, arg: AggArg, ms: Seq<Fields>) -> Result<
    AggOutcomeView,
    ErrorView,
> {
    match arg {
        AggArg::Distinct(e) => distinct_count(f, k, func, *e, ms),
        AggArg::ApproxDistinct(e) => distinct_count(f, k, func, *e, ms),
        AggArg::Expr(e) => aggregate_of(f, c, t, func, *e, ms),
        AggArg::Star => match func {
            AggFunc::Count => Ok(AggOutcomeView::Value(ValueView::Int(ms.len() as i64))),
            AggFunc::Sum => Ok(AggOutcomeView::Value(ValueView::Null)),
            AggFunc::Avg => Ok(AggOutcomeView::Value(ValueView::Null)),
            AggFunc::Min => Ok(AggOutcomeView::Value(ValueView::Null)),
            AggFunc::Max => Ok(AggOutcomeView::Value(ValueView::Null)),
            AggFunc::Rate => Err(change_error()),
            AggFunc::Increase => Err(change_error()),
            AggFunc::Delta => Err(change_error()),
            AggFunc::Percentile(_) => Err(
                ErrorView::Type("percentile() takes a field argument, not * or DISTINCT"@),
            ),
            AggFunc::First => Err(edge_error()),
            AggFunc::Last => Err(edge_error()),
        },
    }
}

/// The refusal of `rate(*)` and the like.
pub open spec fn change_error() -> ErrorView {
    ErrorView::Type("rate()/increase()/delta() take a field argument, not *"@)
}

/// The refusal of `first(*)` and `last(*)`.
pub open spec fn edge_error() -> ErrorView {
    ErrorView::Type("first()/last() take a field argument, not *"@)
}

/// What a `DISTINCT` aggregate comes to: the number of values that encode
/// differently, for `COUNT` alone.
pub open spec fn distinct_count<
    F: Fn(&Expr, &Document) -> Result<Value, EngineError>,
    K: Fn(&Vec<&Value>) -> Vec<u8>,
>(f: F, k: K, func: AggFunc, e: Expr, ms: Seq<Fields>) -> Result<AggOutcomeView, ErrorView> {
    if func != AggFunc::Count {
        Err(
            ErrorView::Unsupported("DISTINCT aggregate arguments are supported for COUNT only"@),
        )
    } else {
        match values_of(f, e, ms) {
            Err(x) => Err(x@),
            Ok(vs) => Ok(
                AggOutcomeView::Value(
                    ValueView::Int(deduped(k, single_rows(vs)).len() as i64),
                ),
            ),
        }
    }
}

fn count_distinct<
    F: Fn(&Expr, &Document) -> Result<Value, EngineError>,
    K: Fn(&Vec<&Value>) -> Vec<u8>,
>(f: &F, k: &K, func: AggFunc, e: &Expr, docs: &Vec<&Document>) -> (r: Result<
    AggOutcome,
    EngineError,
>)
    requires
        is_evaluator(*f),
        is_encoder(*k),
    ensures
        match r {
            Ok(o) => distinct_count(*f, *k, func, *e, refs_view(docs@)) == Ok::<
                AggOutcomeView,
                ErrorView,
            >(o@),
            Err(x) => distinct_count(*f, *k, func, *e, refs_view(docs@)) == Err::<
                AggOutcomeView,
                ErrorView,
            >(x@),
        },
{
    if func != AggFunc::Count {
        return Err(unsupported("DISTINCT aggregate arguments are supported for COUNT only"));
    }
    let values = match collect_values(f, e, docs) {
        Err(x) => {
            return Err(x);
        },
        Ok(vs) => vs,
    };
    let ghost all = values@;
    let rest = values;
    let mut rows: Vec<Vec<Value>> = Vec::new();
    for v in it: rest
        invariant
            row_wf(all),
            it.seq() == all,
            rows@.len() == it.index(),
            forall|i: int| 0 <= i < it.index() ==> (#[trigger] rows@[i])@ == seq![all[i]],
    {
        let ghost done = it.index() as int;
        proof {
            assert(v == all[done]);
        }
        let mut row: Vec<Value> = Vec::new();
        row.push(v);
        proof {
            assert(row@ =~= seq![all[done]]);
        }
        rows.push(row);
    }
    proof {
        assert forall|i: int| 0 <= i < rows@.len() implies row_wf((#[trigger] rows@[i])@) by {
            assert(rows@[i]@ == seq![all[i]]);
            assert(value_wf(all[i]));
        }
        assert forall|i: int| 0 <= i < rows@.len() implies #[trigger] rows_view(rows@)[i]
            == single_rows(all)[i] by {
            assert(rows@[i]@ == seq![all[i]]);
            assert(row_view(rows@[i]@) =~= seq![value_view(all[i])]);
        }
        assert(rows_view(rows@) =~= single_rows(all));
    }
    dedup_rows(&mut rows, k);
    proof {
        assert(rows_view(rows@).len() == rows@.len());
    }
    Ok(AggOutcome::Value(Value::Int(rows.len() as i64)))
}

/// Evaluates an aggregate over a group. `k` encodes values, `c` compares them,
/// and `t` reads a row's time.
pub fn eval_aggregate<
    F: Fn(&Expr, &Document) -> Result<Value, EngineError>,
    K: Fn(&Vec<&Value>) -> Vec<u8>,
    C: Fn(&Value, &Value) -> Option<Rank>,
    T: Fn(&Value) -> Option<i64>,
>(f: &F, k: &K, c: &C, t: &T, func: AggFunc, arg: &AggArg, docs: &Vec<&Document>) -> (r: Result<
    AggOutcome,
    EngineError,
>)
    requires
        is_evaluator(*f),
        is_encoder(*k),
        is_comparison(*c),
        is_clock_reader(*t),
        refs_wf(docs@),
    ensures
        match r {
            Ok(o) => aggregate_value(*f, *k, *c, *t, func, *arg, refs_view(docs@)) == Ok::<
                AggOutcomeView,
                ErrorView,
            >(o@),
            Err(x) => aggregate_value(*f, *k, *c, *t, func, *arg, refs_view(docs@)) == Err::<
                AggOutcomeView,
                ErrorView,
            >(x@),
        },
{
    proof {
        assert(refs_view(docs@).len() == docs@.len());
    }
    match arg {
        AggArg::Distinct(e) => count_distinct(f, k, func, e, docs),
        AggArg::ApproxDistinct(e) => count_distinct(f, k, func, e, docs),
        AggArg::Star => match func {
            AggFunc::Count => Ok(AggOutcome::Value(Value::Int(docs.len() as i64))),
            AggFunc::Sum | AggFunc::Avg | AggFunc::Min | AggFunc::Max => Ok(
                AggOutcome::Value(Value::Null),
            ),
            AggFunc::Rate | AggFunc::Increase | AggFunc::Delta => Err(
                type_error("rate()/increase()/delta() take a field argument, not *"),
            ),
            AggFunc::Percentile(_) => Err(
                type_error("percentile() takes a field argument, not * or DISTINCT"),
            ),
            AggFunc::First | AggFunc::Last => Err(
                type_error("first()/last() take a field argument, not *"),
            ),
        },
        AggArg::Expr(e) => {
            let values = match collect_values(f, e, docs) {
                Err(x) => {
                    return Err(x);
                },
                Ok(vs) => vs,
            };
            match func {
                AggFunc::Count => Ok(AggOutcome::Value(Value::Int(values.len() as i64))),
                AggFunc::Sum => {
                    if values.len() == 0 {
                        Ok(AggOutcome::Value(Value::Null))
                    } else if are_ints(&values) {
                        let n: i64 = sum_ints(&values);
                        Ok(AggOutcome::Value(Value::Int(n)))
                    } else {
                        Ok(AggOutcome::Sum(values))
                    }
                },
                AggFunc::Avg => {
                    if values.len() == 0 {
                        Ok(AggOutcome::Value(Value::Null))
                    } else {
                        Ok(AggOutcome::Average(values))
                    }
                },
                AggFunc::Min => Ok(AggOutcome::Value(reduce_extreme(c, values, Rank::Less))),
                AggFunc::Max => Ok(AggOutcome::Value(reduce_extreme(c, values, Rank::Greater))),
                AggFunc::Rate | AggFunc::Increase | AggFunc::Delta => Ok(AggOutcome::Change),
                AggFunc::Percentile(p) => Ok(AggOutcome::Percentile(p, values)),
                AggFunc::First => match find_edge(f, t, e, false, docs) {
                    Err(x) => Err(x),
                    Ok(None) => Ok(AggOutcome::Value(Value::Null)),
                    Ok(Some((_, v))) => Ok(AggOutcome::Value(v)),
                },
                AggFunc::Last => match find_edge(f, t, e, true, docs) {
                    Err(x) => Err(x),
                    Ok(None) => Ok(AggOutcome::Value(Value::Null)),
                    Ok(Some((_, v))) => Ok(AggOutcome::Value(v)),
                },
            }
        },
    }
}

/// The samples of one series, each with its time.
pub struct SeriesSamples {
    pub series: String,
    pub samples: Vec<(i64, Value)>,
}

pub struct SamplesView {
    pub series: Seq<char>,
    pub samples: Seq<(i64, Value)>,
}

impl View for SeriesSamples {
    type V = SamplesView;

    open spec fn view(&self) -> SamplesView {
        SamplesView { series: self.series@, samples: self.samples@ }
    }
}

/// Series by what each holds.
pub open spec fn series_views(ss: Seq<SeriesSamples>) -> Seq<SamplesView> {
    ss.map_values(|s: SeriesSamples| s@)
}

/// Whether a value is a number.
pub open spec fn is_number(v: Value) -> bool {
    v is Int || v is Float || v is Decimal || v is Timestamp
}

/// The series that a row belongs to: what its hidden field says, or the one
/// series of a plain table.
pub open spec fn row_series(m: Fields) -> Seq<char> {
    if m.dom().contains("__series__"@) {
        match m["__series__"@] {
            ValueView::String(s) => s,
            _ => ""@,
        }
    } else {
        ""@
    }
}

/// The place of a series, or the number of them.
pub open spec fn series_place(ss: Seq<SamplesView>, name: Seq<char>) -> int
    decreases ss.len(),
{
    if ss.len() == 0 {
        0
    } else if ss[0].series == name {
        0
    } else {
        1 + series_place(ss.skip(1), name)
    }
}

/// Series with one more sample.
pub open spec fn with_sample(ss: Seq<SamplesView>, name: Seq<char>, sample: (i64, Value)) -> Seq<
    SamplesView,
> {
    let p = series_place(ss, name);
    if p < ss.len() {
        ss.update(p, SamplesView { series: ss[p].series, samples: ss[p].samples.push(sample) })
    } else {
        ss.push(SamplesView { series: name, samples: seq![sample] })
    }
}

/// The samples of a group by series, in the order of first sight; or the
/// refusal of a row without a time. A row without a number has no sample.
pub open spec fn samples_of<
    F: Fn(&Expr, &Document) -> Result<Value, EngineError>,
    T: Fn(&Value) -> Option<i64>,
>(f: F, t: T, e: Expr, ms: Seq<Fields>) -> Result<Seq<SamplesView>, ErrorView>
    decreases ms.len(),
{
    if ms.len() == 0 {
        Ok(Seq::empty())
    } else {
        match samples_of(f, t, e, ms.drop_last()) {
            Err(x) => Err(x),
            Ok(ss) => match row_time(t, ms.last()) {
                None => Err(
                    ErrorView::Type(
                        "rate()/increase()/delta() require a `ts` column on every row"@,
                    ),
                ),
                Some(ts) => match evaluated(f, e, ms.last()) {
                    Err(x) => Err(x@),
                    Ok(v) => if is_number(v) {
                        Ok(with_sample(ss, row_series(ms.last()), (ts, v)))
                    } else {
                        Ok(ss)
                    },
                },
            },
        }
    }
}

proof fn lemma_samples_fail<
    F: Fn(&Expr, &Document) -> Result<Value, EngineError>,
    T: Fn(&Value) -> Option<i64>,
>(f: F, t: T, e: Expr, ms: Seq<Fields>, k: int)
    requires
        0 <= k <= ms.len(),
        samples_of(f, t, e, ms.take(k)) is Err,
    ensures
        samples_of(f, t, e, ms) == samples_of(f, t, e, ms.take(k)),
    decreases ms.len() - k,
{
    if k == ms.len() {
        assert(ms.take(k) =~= ms);
    } else {
        assert(ms.take(k + 1).drop_last() =~= ms.take(k));
        lemma_samples_fail(f, t, e, ms, k + 1);
    }
}

proof fn lemma_series_place(ss: Seq<SamplesView>, name: Seq<char>, k: int)
    requires
        0 <= k <= ss.len(),
        forall|i: int| 0 <= i < k ==> (#[trigger] ss[i]).series != name,
        k < ss.len() ==> ss[k].series == name,
    ensures
        series_place(ss, name) == k,
    decreases ss.len(),
{
    if ss.len() > 0 && k > 0 {
        assert(ss[0].series != name);
        let rest = ss.skip(1);
        assert forall|i: int| 0 <= i < k - 1 implies (#[trigger] rest[i]).series != name by {
            assert(rest[i] == ss[i + 1]);
        }
        if k < ss.len() {
            assert(rest[k - 1] == ss[k]);
        }
        lemma_series_place(rest, name, k - 1);
    }
}

fn add_sample(ss: &mut Vec<SeriesSamples>, name: String, sample: (i64, Value))
    ensures
        series_views(final(ss)@) == with_sample(series_views(old(ss)@), name@, sample),
{
    let ghost before = series_views(ss@);
    let mut i: usize = 0;
    while i < ss.len() && !str_eq(ss[i].series.as_str(), name.as_str())
        invariant
            series_views(ss@) == before,
            i <= ss@.len(),
            forall|k: int| 0 <= k < i ==> (#[trigger] before[k]).series != name@,
        decreases ss@.len() - i,
    {
        proof {
            assert(before[i as int] == ss@[i as int]@);
        }
        i = i + 1;
    }
    proof {
        assert(before.len() == ss@.len());
        if i < ss@.len() {
            assert(before[i as int] == ss@[i as int]@);
        }
        lemma_series_place(before, name@, i as int);
    }
    if i < ss.len() {
        let mut s = ss.remove(i);
        s.samples.push(sample);
        ss.insert(i, s);
        proof {
            assert(series_views(ss@) =~= with_sample(before, name@, sample));
        }
    } else {
        let mut samples: Vec<(i64, Value)> = Vec::new();
        samples.push(sample);
        let s = SeriesSamples { series: name, samples };
        proof {
            assert(s@.samples =~= seq![sample]);
        }
        ss.push(s);
        proof {
            assert(series_views(ss@) =~= with_sample(before, name@, sample));
        }
    }
}

fn series_of_row(doc: &Document) -> (r: String)
    requires
        doc_wf(*doc),
    ensures
        r@ == row_series(doc_view(*doc)),
{
    match doc.field("__series__") {
        Some(Value::String(s)) => s.clone(),
        _ => "".to_owned(),
    }
}

/// The samples that `rate`, `increase` and `delta` read, by series. Each series
/// is still to be put in the order of time.
pub fn series_samples<
    F: Fn(&Expr, &Document) -> Result<Value, EngineError>,
    T: Fn(&Value) -> Option<i64>,
>(f: &F, t: &T, e: &Expr, docs: &Vec<&Document>) -> (r: Result<Vec<SeriesSamples>, EngineError>)
    requires
        is_evaluator(*f),
        is_clock_reader(*t),
        refs_wf(docs@),
    ensures
        match r {
            Ok(ss) => samples_of(*f, *t, *e, refs_view(docs@)) == Ok::<
                Seq<SamplesView>,
                ErrorView,
            >(series_views(ss@)),
            Err(x) => samples_of(*f, *t, *e, refs_view(docs@)) == Err::<
                Seq<SamplesView>,
                ErrorView,
            >(x@),
        },
{
    let ghost ms = refs_view(docs@);
    let mut out: Vec<SeriesSamples> = Vec::new();
    let mut i: usize = 0;
    proof {
        assert(ms.take(0) =~= Seq::<Fields>::empty());
        assert(series_views(out@) =~= Seq::<SamplesView>::empty());
    }
    while i < docs.len()
        invariant
            is_evaluator(*f),
            is_clock_reader(*t),
            refs_wf(docs@),
            ms == refs_view(docs@),
            i <= docs@.len(),
            samples_of(*f, *t, *e, ms.take(i as int)) == Ok::<Seq<SamplesView>, ErrorView>(
                series_views(out@),
            ),
        decreases docs@.len() - i,
    {
        proof {
            assert(ms.take(i + 1).drop_last() =~= ms.take(i as int));
            assert(ms.take(i + 1).last() == doc_view(*docs@[i as int]));
            assert(doc_wf(*docs@[i as int]));
        }
        let ts: i64 = match time_of_row(t, docs[i]) {
            None => {
                proof {
                    lemma_samples_fail(*f, *t, *e, ms, i + 1);
                }
                return Err(
                    type_error("rate()/increase()/delta() require a `ts` column on every row"),
                );
            },
            Some(ts) => ts,
        };
        match evaluate(f, e, docs[i]) {
            Err(x) => {
                proof {
                    lemma_samples_fail(*f, *t, *e, ms, i + 1);
                }
                return Err(x);
            },
            Ok(v) => {
                let number: bool = match &v {
                    Value::Int(_) => true,
                    Value::Float(_) => true,
                    Value::Decimal(_) => true,
                    Value::Timestamp(_) => true,
                    _ => false,
                };
                if number {
                    let name = series_of_row(docs[i]);
                    add_sample(&mut out, name, (ts, v));
                }
            },
        }
        i = i + 1;
    }
    proof {
        assert(ms.take(ms.len() as int) =~= ms);
    }
    Ok(out)
}

/// Whether a sample is earlier than another.
pub open spec fn earlier(a: (i64, Value), b: (i64, Value)) -> bool {
    a.0 < b.0
}

/// Puts the samples of a series in the order of time; those of one time stay in
/// order.
pub fn sort_samples(samples: Vec<(i64, Value)>) -> (r: Vec<(i64, Value)>)
    ensures
        r@ == stable_sorted(samples@, |a: (i64, Value), b: (i64, Value)| earlier(a, b)),
{
    let ghost lt = |a: (i64, Value), b: (i64, Value)| earlier(a, b);
    let ghost all = samples@;
    let rest = samples;
    let mut out: Vec<(i64, Value)> = Vec::new();
    proof {
        assert(all.take(0) =~= Seq::<(i64, Value)>::empty());
        assert(out@ =~= Seq::<(i64, Value)>::empty());
    }
    for x in it: rest
        invariant
            lt == (|a: (i64, Value), b: (i64, Value)| earlier(a, b)),
            it.seq() == all,
            out@ == stable_sorted(all.take(it.index() as int), lt),
    {
        let ghost done = it.index() as int;
        proof {
            assert(x == all[done]);
            assert(all.take(done + 1).drop_last() =~= all.take(done));
            assert(all.take(done + 1).last() == x);
        }
        let mut k: usize = 0;
        while k < out.len() && x.0 >= out[k].0
            invariant
                lt == (|a: (i64, Value), b: (i64, Value)| earlier(a, b)),
                k <= out@.len(),
                forall|i: int| 0 <= i < k ==> !lt(x, #[trigger] out@[i]),
            decreases out@.len() - k,
        {
            k = k + 1;
        }
        proof {
            lemma_slot_for_is(out@, x, lt, k as int);
        }
        out.insert(k, x);
    }
    proof {
        assert(all.take(all.len() as int) =~= all);
    }
    out
}

/// A result by what it holds.
pub open spec fn result_view(r: Result<Value, EngineError>) -> Result<ValueView, ErrorView> {
    match r {
        Ok(v) => Ok(value_view(v)),
        Err(e) => Err(e@),
    }
}

/// Whether a function gives aggregates these values.
pub open spec fn agrees<L: Fn(&AggFunc, &AggArg) -> Result<Value, EngineError>>(
    l: L,
    g: spec_fn(AggFunc, AggArg) -> Result<ValueView, ErrorView>,
) -> bool {
    forall|func: &AggFunc, arg: &AggArg, r: Result<Value, EngineError>| #[trigger]
        call_ensures(l, (func, arg), r) ==> result_view(r) == g(*func, *arg)
}

/// Whether every literal of an expression is in order.
pub open spec fn expr_wf(e: Expr) -> bool
    decreases e,
{
    match e {
        Expr::Literal(v) => value_wf(v),
        Expr::Column(_) => true,
        Expr::Parameter(_) => true,
        Expr::Unary { expr, .. } => expr_wf(*expr),
        Expr::IsNull { expr, .. } => expr_wf(*expr),
        Expr::Binary { left, right, .. } => expr_wf(*left) && expr_wf(*right),
        Expr::InList { expr, list, .. } => expr_wf(*expr) && forall|i: int|
            0 <= i < list@.len() ==> expr_wf(#[trigger] list@[i]),
        Expr::Between { expr, lo, hi, .. } => expr_wf(*expr) && expr_wf(*lo) && expr_wf(*hi),
        Expr::Like { expr, pattern, .. } => expr_wf(*expr) && expr_wf(*pattern),
        Expr::Func { args, .. } => forall|i: int|
            0 <= i < args@.len() ==> expr_wf(#[trigger] args@[i]),
        Expr::Aggregate { .. } => true,
    }
}

/// Whether `r` is `e` with its aggregates in place of their values.
pub open spec fn is_lowered(
    l: spec_fn(AggFunc, AggArg) -> Result<ValueView, ErrorView>,
    e: Expr,
    r: Expr,
) -> bool
    decreases e,
{
    match e {
        Expr::Literal(v) => r matches Expr::Literal(w) && value_view(w) == value_view(v),
        Expr::Column(c) => r matches Expr::Column(x) && x@ == c@,
        Expr::Parameter(n) => r matches Expr::Parameter(m) && m == n,
        Expr::Unary { op, expr } => r matches Expr::Unary { op: o, expr: x } && o == op
            && is_lowered(l, *expr, *x),
        Expr::IsNull { expr, negated } => r matches Expr::IsNull { expr: x, negated: n } && n
            == negated && is_lowered(l, *expr, *x),
        Expr::Binary { op, left, right } => r matches Expr::Binary { op: o, left: a, right: b } && o
            == op && is_lowered(l, *left, *a) && is_lowered(l, *right, *b),
        Expr::InList { expr, list, negated } => r matches Expr::InList {
            expr: x,
            list: xs,
            negated: n,
        } && n == negated && is_lowered(l, *expr, *x) && xs@.len() == list@.len() && forall|i: int|
            0 <= i < list@.len() ==> is_lowered(l, #[trigger] list@[i], xs@[i]),
        Expr::Between { expr, lo, hi, negated } => r matches Expr::Between {
            expr: x,
            lo: a,
            hi: b,
            negated: n,
        } && n == negated && is_lowered(l, *expr, *x) && is_lowered(l, *lo, *a) && is_lowered(
            l,
            *hi,
            *b,
        ),
        Expr::Like { expr, pattern, case_insensitive, negated } => r matches Expr::Like {
            expr: x,
            pattern: p,
            case_insensitive: c,
            negated: n,
        } && c == case_insensitive && n == negated && is_lowered(l, *expr, *x) && is_lowered(
            l,
            *pattern,
            *p,
        ),
        Expr::Func { name, args } => r matches Expr::Func { name: n, args: xs } && n@ == name@
            && xs@.len() == args@.len() && forall|i: int|
            0 <= i < args@.len() ==> is_lowered(l, #[trigger] args@[i], xs@[i]),
        Expr::Aggregate { func, arg } => r matches Expr::Literal(w) && l(func, arg) == Ok::<
            ValueView,
            ErrorView,
        >(value_view(w)),
    }
}

/// The first aggregate of an expression that has no value, in the order in
/// which they are reached, and why.
pub open spec fn lowering_error(
    l: spec_fn(AggFunc, AggArg) -> Result<ValueView, ErrorView>,
    e: Expr,
) -> Option<ErrorView>
    decreases e, 0nat,
{
    match e {
        Expr::Literal(_) => None,
        Expr::Column(_) => None,
        Expr::Parameter(_) => None,
        Expr::Unary { expr, .. } => lowering_error(l, *expr),
        Expr::IsNull { expr, .. } => lowering_error(l, *expr),
        Expr::Binary { left, right, .. } => first_error(
            lowering_error(l, *left),
            lowering_error(l, *right),
        ),
        Expr::InList { expr, list, .. } => first_error(
            lowering_error(l, *expr),
            list_error(l, list@, list@.len()),
        ),
        Expr::Between { expr, lo, hi, .. } => first_error(
            first_error(lowering_error(l, *expr), lowering_error(l, *lo)),
            lowering_error(l, *hi),
        ),
        Expr::Like { expr, pattern, .. } => first_error(
            lowering_error(l, *expr),
            lowering_error(l, *pattern),
        ),
        Expr::Func { args, .. } => list_error(l, args@, args@.len()),
        Expr::Aggregate { func, arg } => match l(func, arg) {
            Ok(_) => None,
            Err(x) => Some(x),
        },
    }
}

/// The first error of the first `n` of a list of expressions.
pub open spec fn list_error(
    l: spec_fn(AggFunc, AggArg) -> Result<ValueView, ErrorView>,
    es: Seq<Expr>,
    n: nat,
) -> Option<ErrorView>
    decreases es, n,
{
    if n == 0 || n > es.len() {
        None
    } else {
        first_error(list_error(l, es, (n - 1) as nat), lowering_error(l, es[n - 1]))
    }
}

/// The first of two errors.
pub open spec fn first_error(a: Option<ErrorView>, b: Option<ErrorView>) -> Option<ErrorView> {
    match a {
        Some(x) => Some(x),
        None => b,
    }
}

proof fn lemma_list_error(
    l: spec_fn(AggFunc, AggArg) -> Result<ValueView, ErrorView>,
    es: Seq<Expr>,
    k: nat,
    n: nat,
)
    requires
        k <= n <= es.len(),
        list_error(l, es, k) is Some,
    ensures
        list_error(l, es, n) == list_error(l, es, k),
    decreases n - k,
{
    if k < n {
        lemma_list_error(l, es, k, (n - 1) as nat);
    }
}

/// Whether this is a list of expressions with their aggregates in place of
/// their values, or the first error of one.
pub open spec fn list_lowered(
    g: spec_fn(AggFunc, AggArg) -> Result<ValueView, ErrorView>,
    es: Seq<Expr>,
    r: Result<Vec<Expr>, EngineError>,
) -> bool {
    match r {
        Ok(xs) => xs@.len() == es.len() && list_error(g, es, es.len()) is None && forall|i: int|
            0 <= i < es.len() ==> is_lowered(g, #[trigger] es[i], xs@[i]),
        Err(x) => list_error(g, es, es.len()) == Some(x@),
    }
}

fn lower_list<L: Fn(&AggFunc, &AggArg) -> Result<Value, EngineError>>(l: &L, es: &Vec<Expr>) -> (r:
    Result<Vec<Expr>, EngineError>)
    requires
        forall|func: &AggFunc, arg: &AggArg| call_requires(*l, (func, arg)),
        forall|i: int| 0 <= i < es@.len() ==> expr_wf(#[trigger] es@[i]),
    ensures
        r matches Ok(xs) ==> xs@.len() == es@.len(),
        forall|g: spec_fn(AggFunc, AggArg) -> Result<ValueView, ErrorView>| #[trigger]
            agrees(*l, g) ==> list_lowered(g, es@, r),
    decreases es@, 0nat,
{
    let mut out: Vec<Expr> = Vec::new();
    let mut i: usize = 0;
    while i < es.len()
        invariant
            forall|func: &AggFunc, arg: &AggArg| call_requires(*l, (func, arg)),
            forall|i: int| 0 <= i < es@.len() ==> expr_wf(#[trigger] es@[i]),
            i <= es@.len(),
            out@.len() == i,
            forall|g: spec_fn(AggFunc, AggArg) -> Result<ValueView, ErrorView>| #[trigger]
                agrees(*l, g) ==> list_error(g, es@, i as nat) is None && forall|k: int|
                    0 <= k < i ==> is_lowered(g, es@[k], #[trigger] out@[k]),
        decreases es@.len() - i,
    {
        proof {
            assert(decreases_to!(es@ => es@[i as int]));
        }
        match lower_aggregates(l, &es[i]) {
            Err(x) => {
                proof {
                    assert forall|g: spec_fn(AggFunc, AggArg) -> Result<ValueView, ErrorView>|
                        #[trigger] agrees(*l, g) implies list_error(g, es@, es@.len()) == Some(
                        x@,
                    ) by {
                        lemma_list_error(g, es@, (i + 1) as nat, es@.len());
                    }
                }
                return Err(x);
            },
            Ok(e) => {
                out.push(e);
            },
        }
        i = i + 1;
    }
    proof {
        assert forall|g: spec_fn(AggFunc, AggArg) -> Result<ValueView, ErrorView>| #[trigger]
            agrees(*l, g) implies list_lowered(g, es@, Ok(out)) by {
            assert forall|i: int| 0 <= i < es@.len() implies is_lowered(
                g,
                #[trigger] es@[i],
                out@[i],
            ) by {
                assert(is_lowered(g, es@[i], out@[i]));
            }
        }
    }
    Ok(out)
}

/// An expression with each aggregate in place of its value; the first that has
/// none fails the whole.
pub fn lower_aggregates<L: Fn(&AggFunc, &AggArg) -> Result<Value, EngineError>>(l: &L, e: &Expr) -> (r:
    Result<Expr, EngineError>)
    requires
        forall|func: &AggFunc, arg: &AggArg| call_requires(*l, (func, arg)),
        expr_wf(*e),
    ensures
        forall|g: spec_fn(AggFunc, AggArg) -> Result<ValueView, ErrorView>| #[trigger]
            agrees(*l, g) ==> match r {
                Ok(x) => is_lowered(g, *e, x) && lowering_error(g, *e) is None,
                Err(x) => lowering_error(g, *e) == Some(x@),
            },
    decreases *e, 0nat,
{
    match e {
        Expr::Literal(v) => Ok(Expr::Literal(copy_value(v))),
        Expr::Column(c) => Ok(Expr::Column(c.clone())),
        Expr::Parameter(n) => Ok(Expr::Parameter(*n)),
        Expr::Unary { op, expr } => match lower_aggregates(l, expr) {
            Err(x) => Err(x),
            Ok(x) => Ok(Expr::Unary { op: *op, expr: Box::new(x) }),
        },
        Expr::IsNull { expr, negated } => match lower_aggregates(l, expr) {
            Err(x) => Err(x),
            Ok(x) => Ok(Expr::IsNull { expr: Box::new(x), negated: *negated }),
        },
        Expr::Binary { op, left, right } => {
            let a = match lower_aggregates(l, left) {
                Err(x) => {
                    return Err(x);
                },
                Ok(a) => a,
            };
            match lower_aggregates(l, right) {
                Err(x) => Err(x),
                Ok(b) => Ok(Expr::Binary { op: *op, left: Box::new(a), right: Box::new(b) }),
            }
        },
        Expr::InList { expr, list, negated } => {
            let x = match lower_aggregates(l, expr) {
                Err(x) => {
                    return Err(x);
                },
                Ok(x) => x,
            };
            match lower_list(l, list) {
                Err(x) => Err(x),
                Ok(xs) => Ok(Expr::InList { expr: Box::new(x), list: xs, negated: *negated }),
            }
        },
        Expr::Between { expr, lo, hi, negated } => {
            let x = match lower_aggregates(l, expr) {
                Err(x) => {
                    return Err(x);
                },
                Ok(x) => x,
            };
            let a = match lower_aggregates(l, lo) {
                Err(x) => {
                    return Err(x);
                },
                Ok(a) => a,
            };
            match lower_aggregates(l, hi) {
                Err(x) => Err(x),
                Ok(b) => Ok(
                    Expr::Between {
                        expr: Box::new(x),
                        lo: Box::new(a),
                        hi: Box::new(b),
                        negated: *negated,
                    },
                ),
            }
        },
        Expr::Like { expr, pattern, case_insensitive, negated } => {
            let x = match lower_aggregates(l, expr) {
                Err(x) => {
                    return Err(x);
                },
                Ok(x) => x,
            };
            match lower_aggregates(l, pattern) {
                Err(x) => Err(x),
                Ok(p) => Ok(
                    Expr::Like {
                        expr: Box::new(x),
                        pattern: Box::new(p),
                        case_insensitive: *case_insensitive,
                        negated: *negated,
                    },
                ),
            }
        },
        Expr::Func { name, args } => match lower_list(l, args) {
            Err(x) => Err(x),
            Ok(xs) => Ok(Expr::Func { name: name.clone(), args: xs }),
        },
        Expr::Aggregate { func, arg } => {
            let r = l(func, arg);
            proof {
                assert(call_ensures(*l, (func, arg), r));
            }
            match r {
                Err(x) => Err(x),
                Ok(v) => Ok(Expr::Literal(v)),
            }
        },
    }
}

/// A lowered expression has no aggregate left.
pub proof fn lowering_leaves_no_aggregate(
    l: spec_fn(AggFunc, AggArg) -> Result<ValueView, ErrorView>,
    e: Expr,
    r: Expr,
)
    requires
        is_lowered(l, e, r),
    ensures
        !crate::projection::has_aggregate(r),
    decreases e,
{
    match (e, r) {
        (Expr::Unary { expr, .. }, Expr::Unary { expr: x, .. }) => {
            lowering_leaves_no_aggregate(l, *expr, *x);
        },
        (Expr::IsNull { expr, .. }, Expr::IsNull { expr: x, .. }) => {
            lowering_leaves_no_aggregate(l, *expr, *x);
        },
        (Expr::Binary { left, right, .. }, Expr::Binary { left: a, right: b, .. }) => {
            lowering_leaves_no_aggregate(l, *left, *a);
            lowering_leaves_no_aggregate(l, *right, *b);
        },
        (Expr::InList { expr, list, .. }, Expr::InList { expr: x, list: xs, .. }) => {
            lowering_leaves_no_aggregate(l, *expr, *x);
            assert forall|i: int| 0 <= i < xs@.len() implies !crate::projection::has_aggregate(
                #[trigger] xs@[i],
            ) by {
                assert(is_lowered(l, list@[i], xs@[i]));
                lowering_leaves_no_aggregate(l, list@[i], xs@[i]);
            }
        },
        (Expr::Between { expr, lo, hi, .. }, Expr::Between { expr: x, lo: a, hi: b, .. }) => {
            lowering_leaves_no_aggregate(l, *expr, *x);
            lowering_leaves_no_aggregate(l, *lo, *a);
            lowering_leaves_no_aggregate(l, *hi, *b);
        },
        (Expr::Like { expr, pattern, .. }, Expr::Like { expr: x, pattern: p, .. }) => {
            lowering_leaves_no_aggregate(l, *expr, *x);
            lowering_leaves_no_aggregate(l, *pattern, *p);
        },
        (Expr::Func { args, .. }, Expr::Func { args: xs, .. }) => {
            assert forall|i: int| 0 <= i < xs@.len() implies !crate::projection::has_aggregate(
                #[trigger] xs@[i],
            ) by {
                assert(is_lowered(l, args@[i], xs@[i]));
                lowering_leaves_no_aggregate(l, args@[i], xs@[i]);
            }
        },
        _ => {},
    }
}

/// Whether a finisher said this of an outcome over a group that holds `ms`.
pub open spec fn finishes<
    N: Fn(&AggFunc, &AggArg, &Vec<&Document>, AggOutcome) -> Result<Value, EngineError>,
>(
    n: N,
    func: AggFunc,
    arg: AggArg,
    ms: Seq<Fields>,
    o: AggOutcomeView,
    v: Result<ValueView, ErrorView>,
) -> bool {
    exists|ds: Vec<&Document>, x: AggOutcome, r: Result<Value, EngineError>| #[trigger]
        call_ensures(n, (&func, &arg, &ds, x), r) && refs_view(ds@) == ms && x@ == o && result_view(
            r,
        ) == v
}

/// What a finisher makes of an outcome.
pub open spec fn finished<
    N: Fn(&AggFunc, &AggArg, &Vec<&Document>, AggOutcome) -> Result<Value, EngineError>,
>(n: N, func: AggFunc, arg: AggArg, ms: Seq<Fields>, o: AggOutcomeView) -> Result<
    ValueView,
    ErrorView,
> {
    choose|v: Result<ValueView, ErrorView>| finishes(n, func, arg, ms, o, v)
}

/// Whether a function finishes what ends in floating point, always alike.
pub open spec fn is_finisher<
    N: Fn(&AggFunc, &AggArg, &Vec<&Document>, AggOutcome) -> Result<Value, EngineError>,
>(n: N) -> bool {
    &&& forall|func: &AggFunc, arg: &AggArg, ds: &Vec<&Document>, x: AggOutcome|
        call_requires(n, (func, arg, ds, x))
    &&& forall|
        func: &AggFunc,
        arg: &AggArg,
        p: &Vec<&Document>,
        q: &Vec<&Document>,
        x: AggOutcome,
        y: AggOutcome,
        r: Result<Value, EngineError>,
        u: Result<Value, EngineError>,
    |
        #![trigger call_ensures(n, (func, arg, p, x), r), call_ensures(n, (func, arg, q, y), u)]
        refs_view(p@) == refs_view(q@) && x@ == y@ && call_ensures(n, (func, arg, p, x), r)
            && call_ensures(n, (func, arg, q, y), u) ==> result_view(r) == result_view(u)
}

/// The value of an aggregate over a group: what it comes to, finished where it
/// ends in floating point.
pub open spec fn group_value<
    F: Fn(&Expr, &Document) -> Result<Value, EngineError>,
    K: Fn(&Vec<&Value>) -> Vec<u8>,
    M: Fn(&Value, &Value) -> Option<Rank>,
    T: Fn(&Value) -> Option<i64>,
    N: Fn(&AggFunc, &AggArg, &Vec<&Document>, AggOutcome) -> Result<Value, EngineError>,
>(f: F, k: K, c: M, t: T, n: N, func: AggFunc, arg: AggArg, ms: Seq<Fields>) -> Result<
    ValueView,
    ErrorView,
> {
    match aggregate_value(f, k, c, t, func, arg, ms) {
        Err(x) => Err(x),
        Ok(AggOutcomeView::Value(v)) => Ok(v),
        Ok(o) => finished(n, func, arg, ms, o),
    }
}

/// The values of the aggregates over a group.
pub open spec fn group_values<
    F: Fn(&Expr, &Document) -> Result<Value, EngineError>,
    K: Fn(&Vec<&Value>) -> Vec<u8>,
    M: Fn(&Value, &Value) -> Option<Rank>,
    T: Fn(&Value) -> Option<i64>,
    N: Fn(&AggFunc, &AggArg, &Vec<&Document>, AggOutcome) -> Result<Value, EngineError>,
>(f: F, k: K, c: M, t: T, n: N, ms: Seq<Fields>) -> spec_fn(AggFunc, AggArg) -> Result<
    ValueView,
    ErrorView,
> {
    |func: AggFunc, arg: AggArg| group_value(f, k, c, t, n, func, arg, ms)
}

/// The document that stands for a group: its first, or one without fields.
pub open spec fn first_or_empty(ms: Seq<Fields>) -> Fields {
    if ms.len() == 0 {
        Map::empty()
    } else {
        ms[0]
    }
}

/// Whether an expression comes to this over a group: the error of the first
/// aggregate that has no value, else what the expression, its aggregates in
/// place of their values, evaluates to on the group's first document.
pub open spec fn is_over_group<
    F: Fn(&Expr, &Document) -> Result<Value, EngineError>,
    K: Fn(&Vec<&Value>) -> Vec<u8>,
    M: Fn(&Value, &Value) -> Option<Rank>,
    T: Fn(&Value) -> Option<i64>,
    N: Fn(&AggFunc, &AggArg, &Vec<&Document>, AggOutcome) -> Result<Value, EngineError>,
>(f: F, k: K, c: M, t: T, n: N, e: Expr, ms: Seq<Fields>, r: Result<Value, EngineError>) -> bool {
    let g = group_values(f, k, c, t, n, ms);
    match lowering_error(g, e) {
        Some(x) => r matches Err(y) && y@ == x,
        None => exists|low: Expr| #[trigger]
            is_lowered(g, e, low) && r == evaluated(f, low, first_or_empty(ms)),
    }
}

/// Whether a predicate is decided so over a group.
pub open spec fn is_decided_over_group<
    F: Fn(&Expr, &Document) -> Result<Value, EngineError>,
    K: Fn(&Vec<&Value>) -> Vec<u8>,
    M: Fn(&Value, &Value) -> Option<Rank>,
    T: Fn(&Value) -> Option<i64>,
    N: Fn(&AggFunc, &AggArg, &Vec<&Document>, AggOutcome) -> Result<Value, EngineError>,
    P: Fn(&Expr, &Document) -> Result<bool, EngineError>,
>(
    f: F,
    k: K,
    c: M,
    t: T,
    n: N,
    p: P,
    e: Expr,
    ms: Seq<Fields>,
    r: Result<bool, EngineError>,
) -> bool {
    let g = group_values(f, k, c, t, n, ms);
    match lowering_error(g, e) {
        Some(x) => r matches Err(y) && y@ == x,
        None => exists|low: Expr| #[trigger]
            is_lowered(g, e, low) && r == decided(p, low, first_or_empty(ms)),
    }
}

fn value_over_group<
    F: Fn(&Expr, &Document) -> Result<Value, EngineError>,
    K: Fn(&Vec<&Value>) -> Vec<u8>,
    M: Fn(&Value, &Value) -> Option<Rank>,
    T: Fn(&Value) -> Option<i64>,
    N: Fn(&AggFunc, &AggArg, &Vec<&Document>, AggOutcome) -> Result<Value, EngineError>,
>(f: &F, k: &K, c: &M, t: &T, n: &N, func: &AggFunc, arg: &AggArg, docs: &Vec<&Document>) -> (r:
    Result<Value, EngineError>)
    requires
        is_evaluator(*f),
        is_encoder(*k),
        is_comparison(*c),
        is_clock_reader(*t),
        is_finisher(*n),
        refs_wf(docs@),
    ensures
        result_view(r) == group_value(*f, *k, *c, *t, *n, *func, *arg, refs_view(docs@)),
{
    let o = match eval_aggregate(f, k, c, t, *func, arg, docs) {
        Err(e) => {
            return Err(e);
        },
        Ok(o) => o,
    };
    if let AggOutcome::Value(v) = o {
        return Ok(v);
    }
    let ghost ov = o@;
    let ghost oc = o;
    let r = n(func, arg, docs, o);
    proof {
        let ms = refs_view(docs@);
        assert(call_ensures(*n, (func, arg, docs, oc), r));
        assert(finishes(*n, *func, *arg, ms, ov, result_view(r)));
        let v = finished(*n, *func, *arg, ms, ov);
        assert(finishes(*n, *func, *arg, ms, ov, v));
        let (ds, x, u) = choose|ds: Vec<&Document>, x: AggOutcome, u: Result<Value, EngineError>|
            #[trigger] call_ensures(*n, (func, arg, &ds, x), u) && refs_view(ds@) == ms && x@ == ov
                && result_view(u) == v;
        assert(call_ensures(*n, (func, arg, &ds, x), u));
    }
    r
}

fn lower_over_group<
    F: Fn(&Expr, &Document) -> Result<Value, EngineError>,
    K: Fn(&Vec<&Value>) -> Vec<u8>,
    M: Fn(&Value, &Value) -> Option<Rank>,
    T: Fn(&Value) -> Option<i64>,
    N: Fn(&AggFunc, &AggArg, &Vec<&Document>, AggOutcome) -> Result<Value, EngineError>,
>(f: &F, k: &K, c: &M, t: &T, n: &N, e: &Expr, docs: &Vec<&Document>) -> (r: Result<Expr, EngineError>)
    requires
        is_evaluator(*f),
        is_encoder(*k),
        is_comparison(*c),
        is_clock_reader(*t),
        is_finisher(*n),
        refs_wf(docs@),
        expr_wf(*e),
    ensures
        ({
            let g = group_values(*f, *k, *c, *t, *n, refs_view(docs@));
            match r {
                Ok(low) => is_lowered(g, *e, low) && lowering_error(g, *e) is None,
                Err(x) => lowering_error(g, *e) == Some(x@),
            }
        }),
{
    let ghost g = group_values(*f, *k, *c, *t, *n, refs_view(docs@));
    let l = |func: &AggFunc, arg: &AggArg| -> (r: Result<Value, EngineError>)
        ensures
            result_view(r) == group_value(*f, *k, *c, *t, *n, *func, *arg, refs_view(docs@)),
        { value_over_group(f, k, c, t, n, func, arg, docs) };
    proof {
        assert(agrees(l, g));
    }
    lower_aggregates(&l, e)
}

/// What an expression comes to over a group. `k` encodes values, `c` compares
/// them, `t` reads a row's time, and `finish` makes the value of an aggregate
/// that ends in floating point.
pub fn eval_over_group<
    F: Fn(&Expr, &Document) -> Result<Value, EngineError>,
    K: Fn(&Vec<&Value>) -> Vec<u8>,
    M: Fn(&Value, &Value) -> Option<Rank>,
    T: Fn(&Value) -> Option<i64>,
    N: Fn(&AggFunc, &AggArg, &Vec<&Document>, AggOutcome) -> Result<Value, EngineError>,
>(f: &F, k: &K, c: &M, t: &T, finish: &N, e: &Expr, docs: &Vec<&Document>) -> (r: Result<
    Value,
    EngineError,
>)
    requires
        is_evaluator(*f),
        is_encoder(*k),
        is_comparison(*c),
        is_clock_reader(*t),
        is_finisher(*finish),
        refs_wf(docs@),
        expr_wf(*e),
    ensures
        is_over_group(*f, *k, *c, *t, *finish, *e, refs_view(docs@), r),
        r matches Ok(v) ==> value_wf(v),
{
    let low = match lower_over_group(f, k, c, t, finish, e, docs) {
        Err(x) => {
            return Err(x);
        },
        Ok(low) => low,
    };
    proof {
        assert(refs_view(docs@).len() == docs@.len());
    }
    if docs.len() == 0 {
        return evaluate(f, &low, &Document::new());
    }
    proof {
        assert(refs_view(docs@)[0] == doc_view(*docs@[0]));
    }
    evaluate(f, &low, docs[0])
}

fn decide_on<P: Fn(&Expr, &Document) -> Result<bool, EngineError>>(p: &P, e: &Expr, d: &Document) -> (r:
    Result<bool, EngineError>)
    requires
        is_decider(*p),
    ensures
        r == decided(*p, *e, doc_view(*d)),
{
    let r = p(e, d);
    proof {
        let m = doc_view(*d);
        assert(call_ensures(*p, (e, d), r));
        assert(decides(*p, *e, m, r));
        let c = decided(*p, *e, m);
        assert(decides(*p, *e, m, c));
        let o = choose|o: Document| #[trigger] call_ensures(*p, (e, &o), c) && doc_view(o) == m;
        assert(call_ensures(*p, (e, &o), c));
    }
    r
}

/// Whether a group passes a predicate: its aggregates over the whole, the rest
/// on the first document.
pub fn decide_over_group<
    F: Fn(&Expr, &Document) -> Result<Value, EngineError>,
    K: Fn(&Vec<&Value>) -> Vec<u8>,
    M: Fn(&Value, &Value) -> Option<Rank>,
    T: Fn(&Value) -> Option<i64>,
    N: Fn(&AggFunc, &AggArg, &Vec<&Document>, AggOutcome) -> Result<Value, EngineError>,
    P: Fn(&Expr, &Document) -> Result<bool, EngineError>,
>(f: &F, k: &K, c: &M, t: &T, finish: &N, p: &P, e: &Expr, docs: &Vec<&Document>) -> (r: Result<
    bool,
    EngineError,
>)
    requires
        is_evaluator(*f),
        is_encoder(*k),
        is_comparison(*c),
        is_clock_reader(*t),
        is_finisher(*finish),
        is_decider(*p),
        refs_wf(docs@),
        expr_wf(*e),
    ensures
        is_decided_over_group(*f, *k, *c, *t, *finish, *p, *e, refs_view(docs@), r),
{
    let low = match lower_over_group(f, k, c, t, finish, e, docs) {
        Err(x) => {
            return Err(x);
        },
        Ok(low) => low,
    };
    proof {
        assert(refs_view(docs@).len() == docs@.len());
    }
    if docs.len() == 0 {
        return decide_on(p, &low, &Document::new());
    }
    proof {
        assert(refs_view(docs@)[0] == doc_view(*docs@[0]));
    }
    decide_on(p, &low, docs[0])
}

/// Whether these are what documents hold.
pub open spec fn hold_documents(ms: Seq<Fields>) -> bool {
    forall|i: int| 0 <= i < ms.len() ==> exists|d: Document| doc_view(d) == #[trigger] ms[i]
}

/// Whether a function evaluates expressions over groups as their aggregates
/// come out over the group.
pub open spec fn evaluates_groups<
    F: Fn(&Expr, &Document) -> Result<Value, EngineError>,
    K: Fn(&Vec<&Value>) -> Vec<u8>,
    M: Fn(&Value, &Value) -> Option<Rank>,
    T: Fn(&Value) -> Option<i64>,
    N: Fn(&AggFunc, &AggArg, &Vec<&Document>, AggOutcome) -> Result<Value, EngineError>,
    A: Fn(&Expr, &Vec<&Document>) -> Result<Value, EngineError>,
>(f: F, k: K, c: M, t: T, n: N, a: A) -> bool {
    forall|e: Expr, ms: Seq<Fields>|
        hold_documents(ms) ==> is_over_group(
            f,
            k,
            c,
            t,
            n,
            e,
            ms,
            #[trigger] group_evaluated(a, e, ms),
        )
}

/// Whether a function decides predicates over groups as their aggregates come
/// out over the group.
pub open spec fn decides_groups<
    F: Fn(&Expr, &Document) -> Result<Value, EngineError>,
    K: Fn(&Vec<&Value>) -> Vec<u8>,
    M: Fn(&Value, &Value) -> Option<Rank>,
    T: Fn(&Value) -> Option<i64>,
    N: Fn(&AggFunc, &AggArg, &Vec<&Document>, AggOutcome) -> Result<Value, EngineError>,
    P: Fn(&Expr, &Document) -> Result<bool, EngineError>,
    H: Fn(&Expr, &Vec<&Document>) -> Result<bool, EngineError>,
>(f: F, k: K, c: M, t: T, n: N, p: P, h: H) -> bool {
    forall|e: Expr, ms: Seq<Fields>|
        hold_documents(ms) ==> is_decided_over_group(
            f,
            k,
            c,
            t,
            n,
            p,
            e,
            ms,
            #[trigger] group_decided(h, e, ms),
        )
}

/// Whether a cell shows what an expression comes to over a group.
pub open spec fn shows_over_group<
    F: Fn(&Expr, &Document) -> Result<Value, EngineError>,
    K: Fn(&Vec<&Value>) -> Vec<u8>,
    M: Fn(&Value, &Value) -> Option<Rank>,
    T: Fn(&Value) -> Option<i64>,
    N: Fn(&AggFunc, &AggArg, &Vec<&Document>, AggOutcome) -> Result<Value, EngineError>,
>(f: F, k: K, c: M, t: T, n: N, e: Expr, ms: Seq<Fields>, cell: ValueView) -> bool {
    exists|v: Value| #[trigger] value_view(v) == cell && is_over_group(f, k, c, t, n, e, ms, Ok(v))
}

proof fn lemma_group_tuple_over<
    F: Fn(&Expr, &Document) -> Result<Value, EngineError>,
    K: Fn(&Vec<&Value>) -> Vec<u8>,
    M: Fn(&Value, &Value) -> Option<Rank>,
    T: Fn(&Value) -> Option<i64>,
    N: Fn(&AggFunc, &AggArg, &Vec<&Document>, AggOutcome) -> Result<Value, EngineError>,
    A: Fn(&Expr, &Vec<&Document>) -> Result<Value, EngineError>,
>(f: F, k: K, c: M, t: T, n: N, a: A, es: Seq<Expr>, ms: Seq<Fields>, m: nat)
    requires
        evaluates_groups(f, k, c, t, n, a),
        hold_documents(ms),
        m <= es.len(),
    ensures
        group_tuple(a, es, ms, m) matches Ok(vs) ==> vs.len() == m && forall|i: int|
            0 <= i < m ==> is_over_group(f, k, c, t, n, es[i], ms, Ok(#[trigger] vs[i])),
    decreases m,
{
    if m > 0 {
        lemma_group_tuple_over(f, k, c, t, n, a, es, ms, (m - 1) as nat);
        assert(is_over_group(f, k, c, t, n, es[m - 1], ms, group_evaluated(a, es[m - 1], ms)));
    }
}

/// The row of a group shows what its expressions come to over the group: each
/// aggregate is that of the group's documents, the rest is read off the first
/// of them. A group is kept where `HAVING` holds over it in the same way.
pub proof fn group_rows_show_their_aggregates<
    F: Fn(&Expr, &Document) -> Result<Value, EngineError>,
    K: Fn(&Vec<&Value>) -> Vec<u8>,
    M: Fn(&Value, &Value) -> Option<Rank>,
    T: Fn(&Value) -> Option<i64>,
    N: Fn(&AggFunc, &AggArg, &Vec<&Document>, AggOutcome) -> Result<Value, EngineError>,
    P: Fn(&Expr, &Document) -> Result<bool, EngineError>,
    A: Fn(&Expr, &Vec<&Document>) -> Result<Value, EngineError>,
    H: Fn(&Expr, &Vec<&Document>) -> Result<bool, EngineError>,
>(f: F, k: K, c: M, t: T, n: N, p: P, a: A, h: H, sel: Select, ms: Seq<Fields>)
    requires
        evaluates_groups(f, k, c, t, n, a),
        decides_groups(f, k, c, t, n, p, h),
        hold_documents(ms),
    ensures
        group_row(a, h, sel, ms) matches Ok(Some((_, row))) ==> {
            let es = item_exprs(sel.items@);
            &&& sel.having matches Some(e) ==> is_decided_over_group(f, k, c, t, n, p, e, ms, Ok(true))
            &&& row.len() == es.len()
            &&& forall|i: int|
                0 <= i < es.len() ==> shows_over_group(f, k, c, t, n, es[i], ms, #[trigger] row[i])
        },
{
    let es = item_exprs(sel.items@);
    lemma_group_tuple_over(f, k, c, t, n, a, es, ms, es.len());
    if let Ok(Some((_, row))) = group_row(a, h, sel, ms) {
        if let Some(e) = sel.having {
            assert(is_decided_over_group(f, k, c, t, n, p, e, ms, group_decided(h, e, ms)));
        }
        let vs = group_tuple(a, es, ms, es.len())->Ok_0;
        assert forall|i: int| 0 <= i < es.len() implies shows_over_group(
            f,
            k,
            c,
            t,
            n,
            es[i],
            ms,
            #[trigger] row[i],
        ) by {
            assert(row[i] == value_view(vs[i]));
            assert(is_over_group(f, k, c, t, n, es[i], ms, Ok(vs[i])));
        }
    }
}

} // verus!
