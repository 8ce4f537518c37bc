//! What is read off stored rows: the rows that pass, the rows since a time, the
//! keys that are there, the values that differ, the samples of a series.

use vstd::prelude::*;

use crate::aggregate::is_number;
use crate::aggregate::row_series;
use crate::aggregate::row_time;
use crate::aggregate::samples_of;
use crate::aggregate::series_place;
use crate::aggregate::SamplesView;
use crate::ast::BinaryOp;
use crate::ast::Expr;
use crate::counting::first_of_each;
use crate::error::EngineError;
use crate::execute::encoding;
use crate::execute::evaluated;
use crate::gather::StoredRow;
use crate::geo::geo_among;
use crate::geo::geo_of;
use crate::geo::GeoView;
use crate::hits::row_of;
use crate::hlc::Hlc;
use crate::join_laws::can_decide;
use crate::join_laws::is_true_of;
use crate::join_laws::passing_is_being_true;
use crate::local::counted_by;
use crate::local::entries_of;
use crate::local::present_of;
use crate::local::rows_passing;
use crate::local::since_rows;
use crate::model::doc_view;
use crate::model::value_view;
use crate::model::Fields;
use crate::order::is_strict_order;
use crate::order::stable_sort_is_a_sort;
use crate::plan::CountPlan;
use crate::plan::Cover;
use crate::text::lemma_seq_lt_irrefl;
use crate::text::lemma_seq_lt_total;
use crate::text::lemma_seq_lt_trans;
use crate::text::seq_lt;
use crate::timeseries::base_labels;
use crate::timeseries::bucket_of;
use crate::timeseries::count_in;
use crate::timeseries::label_lt;
use crate::timeseries::part_labels;
use crate::timeseries::part_name;
use crate::timeseries::series_field;
use crate::timeseries::RollupPart;
use crate::value::Document;
use crate::value::Value;

verus! {

/// Whether a stored row is a document that a filter is true of.
pub open spec fn row_matches<
    G: Fn(&Vec<u8>) -> Result<Option<Document>, EngineError>,
    D: Fn(&Expr, &Document) -> Result<bool, EngineError>,
>(g: G, d: D, filter: Option<Expr>, row: StoredRow) -> bool {
    row_of(g, row.1) matches Ok(Some(doc)) && is_true_of(d, filter, doc_view(doc))
}

/// Whether a stored row stops a scan: it cannot be read, where that is not
/// passed over, or the filter cannot be decided on it.
pub open spec fn row_stops<
    G: Fn(&Vec<u8>) -> Result<Option<Document>, EngineError>,
    D: Fn(&Expr, &Document) -> Result<bool, EngineError>,
>(g: G, d: D, filter: Option<Expr>, lenient: bool, row: StoredRow) -> bool {
    match row_of(g, row.1) {
        Err(_) => !lenient,
        Ok(None) => false,
        Ok(Some(doc)) => !can_decide(d, filter, doc_view(doc)),
    }
}

/// A scan gives the documents of the stored rows that its filter is true of, at
/// their keys, in order. It fails where a row stops it, and only there.
pub proof fn scans_give_the_rows_that_match<
    G: Fn(&Vec<u8>) -> Result<Option<Document>, EngineError>,
    D: Fn(&Expr, &Document) -> Result<bool, EngineError>,
>(g: G, d: D, filter: Option<Expr>, lenient: bool, rows: Seq<StoredRow>)
    ensures
        rows_passing(g, d, filter, lenient, rows) is Ok <==> forall|i: int|
            0 <= i < rows.len() ==> !row_stops(g, d, filter, lenient, #[trigger] rows[i]),
        rows_passing(g, d, filter, lenient, rows) matches Ok(kept) ==> kept == rows.filter(
            |r: StoredRow| row_matches(g, d, filter, r),
        ).map_values(|r: StoredRow| (r.0@, row_of(g, r.1)->Ok_0->0)),
    decreases rows.len(),
{
    reveal(Seq::filter);
    let p = |r: StoredRow| row_matches(g, d, filter, r);
    let v = |r: StoredRow| (r.0@, row_of(g, r.1)->Ok_0->0);
    if rows.len() == 0 {
        assert(rows.filter(p).map_values(v) =~= Seq::<(Seq<u8>, Document)>::empty());
    } else {
        let init = rows.drop_last();
        let n = rows.len() - 1;
        scans_give_the_rows_that_match(g, d, filter, lenient, init);
        assert(rows[n] == rows.last());
        if let Ok(Some(doc)) = row_of(g, rows.last().1) {
            passing_is_being_true(d, filter, doc_view(doc));
        }
        if rows_passing(g, d, filter, lenient, init) is Err {
            let i = choose|i: int|
                0 <= i < n && row_stops(g, d, filter, lenient, #[trigger] init[i]);
            assert(row_stops(g, d, filter, lenient, rows[i]));
        } else {
            assert forall|i: int| 0 <= i < n implies !row_stops(
                g,
                d,
                filter,
                lenient,
                #[trigger] rows[i],
            ) by {
                assert(!row_stops(g, d, filter, lenient, init[i]));
            }
        }
        if rows_passing(g, d, filter, lenient, rows) is Ok {
            let kept = rows_passing(g, d, filter, lenient, rows)->Ok_0;
            assert(kept =~= rows.filter(p).map_values(v));
        }
    }
}

/// Whether a version is sent to a reader that has everything before a time: it
/// is not older than that, and it is a deletion or its row is there.
pub open spec fn is_news<F: Fn(&Vec<u8>) -> Result<Option<Vec<u8>>, EngineError>>(
    f: F,
    since: u64,
    s: (Vec<u8>, Hlc, bool),
) -> bool {
    s.1.physical >= since && (s.2 ==> (row_of(f, s.0) matches Ok(Some(_))))
}

/// A version as it is sent: its row, or nothing for a deletion.
pub open spec fn as_sent<F: Fn(&Vec<u8>) -> Result<Option<Vec<u8>>, EngineError>>(
    f: F,
    s: (Vec<u8>, Hlc, bool),
) -> (Seq<u8>, Seq<u8>, Hlc, bool) {
    (
        s.0@,
        if s.2 {
            (row_of(f, s.0)->Ok_0->0)@
        } else {
            Seq::empty()
        },
        s.1,
        s.2,
    )
}

/// What is sent since a time are the versions that are not older, deletions
/// among them, each with its stamp, in order.
pub proof fn news_are_the_versions_since<F: Fn(&Vec<u8>) -> Result<Option<Vec<u8>>, EngineError>>(
    f: F,
    stamps: Seq<(Vec<u8>, Hlc, bool)>,
    since: u64,
)
    ensures
        since_rows(f, stamps, since) is Ok <==> forall|i: int|
            0 <= i < stamps.len() ==> ((#[trigger] stamps[i]).1.physical >= since && stamps[i].2
                ==> row_of(f, stamps[i].0) is Ok),
        since_rows(f, stamps, since) matches Ok(rows) ==> rows == stamps.filter(
            |s: (Vec<u8>, Hlc, bool)| is_news(f, since, s),
        ).map_values(|s: (Vec<u8>, Hlc, bool)| as_sent(f, s)),
    decreases stamps.len(),
{
    reveal(Seq::filter);
    let p = |s: (Vec<u8>, Hlc, bool)| is_news(f, since, s);
    let v = |s: (Vec<u8>, Hlc, bool)| as_sent(f, s);
    if stamps.len() == 0 {
        assert(stamps.filter(p).map_values(v) =~= Seq::<(Seq<u8>, Seq<u8>, Hlc, bool)>::empty());
    } else {
        let init = stamps.drop_last();
        let n = stamps.len() - 1;
        news_are_the_versions_since(f, init, since);
        assert(stamps[n] == stamps.last());
        assert(forall|i: int| 0 <= i < n ==> #[trigger] stamps[i] == init[i]);
        if since_rows(f, init, since) is Err {
            let i = choose|i: int|
                0 <= i < n && !((#[trigger] init[i]).1.physical >= since && init[i].2 ==> row_of(
                    f,
                    init[i].0,
                ) is Ok);
            assert(stamps[i] == init[i]);
        }
        if since_rows(f, stamps, since) is Ok {
            let rows = since_rows(f, stamps, since)->Ok_0;
            assert(rows =~= stamps.filter(p).map_values(v));
        }
    }
}

/// Of some keys those are named that are there, or those that are not, in
/// order.
pub proof fn keys_are_sorted_by_presence<F: Fn(&Vec<u8>) -> Result<Option<Vec<u8>>, EngineError>>(
    f: F,
    keys: Seq<Vec<u8>>,
    want: bool,
)
    ensures
        present_of(f, keys, want) matches Ok(out) ==> out == keys.filter(
            |k: Vec<u8>| (row_of(f, k)->Ok_0 is Some) == want,
        ).map_values(|k: Vec<u8>| k@),
        (forall|i: int| 0 <= i < keys.len() ==> row_of(f, #[trigger] keys[i]) is Ok) <==> present_of(
            f,
            keys,
            want,
        ) is Ok,
    decreases keys.len(),
{
    reveal(Seq::filter);
    let p = |k: Vec<u8>| (row_of(f, k)->Ok_0 is Some) == want;
    let v = |k: Vec<u8>| k@;
    if keys.len() == 0 {
        assert(keys.filter(p).map_values(v) =~= Seq::<Seq<u8>>::empty());
    } else {
        let init = keys.drop_last();
        let n = keys.len() - 1;
        keys_are_sorted_by_presence(f, init, want);
        assert(keys[n] == keys.last());
        if present_of(f, init, want) is Err {
            let i = choose|i: int| 0 <= i < n && !(row_of(f, #[trigger] init[i]) is Ok);
            assert(!(row_of(f, keys[i]) is Ok));
        } else {
            assert forall|i: int| 0 <= i < n implies row_of(f, #[trigger] keys[i]) is Ok by {
                assert(row_of(f, init[i]) is Ok);
            }
        }
        if present_of(f, keys, want) is Ok {
            let out = present_of(f, keys, want)->Ok_0;
            assert(out =~= keys.filter(p).map_values(v));
        }
    }
}

/// The rows that an index counts and those it counts as all the others make up
/// the whole.
pub proof fn counts_and_complements_make_the_whole<
    Q: for<'b> Fn(&Cover<'b>) -> Result<usize, EngineError>,
>(q: Q, total: usize, c: Cover<'_>, all: Cover<'_>)
    requires
        entries_of(q, c) is Ok,
        entries_of(q, c)->Ok_0 <= total,
        entries_of(q, all) is Ok,
        entries_of(q, c)->Ok_0 <= entries_of(q, all)->Ok_0,
    ensures
        counted_by(q, total, CountPlan::Cover(c)) is Ok,
        counted_by(q, total, CountPlan::Cover(c))->Ok_0 == Some(entries_of(q, c)->Ok_0),
        counted_by(q, total, CountPlan::AllBut(c)) is Ok,
        counted_by(q, total, CountPlan::AllBut(c))->Ok_0 is Some,
        counted_by(q, total, CountPlan::Cover(c))->Ok_0->0 + counted_by(
            q,
            total,
            CountPlan::AllBut(c),
        )->Ok_0->0 == total,
        counted_by(q, total, CountPlan::Complement { total: all, matching: c }) is Ok,
        counted_by(q, total, CountPlan::Complement { total: all, matching: c })->Ok_0 is Some,
        counted_by(q, total, CountPlan::Cover(c))->Ok_0->0 + counted_by(
            q,
            total,
            CountPlan::Complement { total: all, matching: c },
        )->Ok_0->0 == entries_of(q, all)->Ok_0,
        counted_by(q, total, CountPlan::Stream) == Ok::<Option<usize>, EngineError>(None),
{
}

/// The different values of a column are one for each encoding that a value
/// other than `NULL` has, the first of those that have it.
pub proof fn different_values_are_the_firsts<K: Fn(&Vec<&Value>) -> Vec<u8>>(
    k: K,
    vs: Seq<Value>,
    key: Seq<u8>,
) -> (p: int)
    ensures
        first_of_each(k, vs).dom().contains(key) <==> exists|i: int|
            0 <= i < vs.len() && !((#[trigger] vs[i]) is Null) && encoding(
                k,
                seq![value_view(vs[i])],
            ) == key,
        first_of_each(k, vs).dom().contains(key) ==> {
            &&& 0 <= p < vs.len()
            &&& !(vs[p] is Null)
            &&& encoding(k, seq![value_view(vs[p])]) == key
            &&& first_of_each(k, vs)[key] == vs[p]
            &&& forall|i: int|
                0 <= i < p && !((#[trigger] vs[i]) is Null) ==> encoding(k, seq![value_view(vs[i])])
                    != key
        },
    decreases vs.len(),
{
    if vs.len() == 0 {
        0
    } else {
        let init = vs.drop_last();
        let n = vs.len() - 1;
        let before = different_values_are_the_firsts(k, init, key);
        assert(vs[n] == vs.last());
        assert(forall|i: int| 0 <= i < n ==> #[trigger] vs[i] == init[i]);
        let m = first_of_each(k, init);
        if m.dom().contains(key) {
            assert(vs[before] == init[before]);
            before
        } else {
            assert forall|i: int| 0 <= i < n && !((#[trigger] vs[i]) is Null) implies encoding(
                k,
                seq![value_view(vs[i])],
            ) != key by {
                assert(vs[i] == init[i]);
            }
            n
        }
    }
}

/// Whether an expression is the distance from a point: `geo_distance(column, x,
/// y)`.
pub open spec fn is_distance(e: Expr, column: Seq<char>, x: Expr, y: Expr) -> bool {
    e matches Expr::Func { name, args } && name@ == "geo_distance"@ && args@.len() == 3 && (
    args@[0] matches Expr::Column(c) && c@ == column) && args@[1] == x && args@[2] == y
}

/// Whether a condition bounds a column's place so: its distance from a point
/// from above, or its box.
pub open spec fn bounds_place(e: Expr, g: GeoView) -> bool {
    if g.bounded_by_distance {
        &&& g.exprs.len() == 3
        &&& e matches Expr::Binary { op, left, right } && (((op == BinaryOp::Lt || op
            == BinaryOp::LtEq) && is_distance(*left, g.column, g.exprs[0], g.exprs[1]) && *right
            == g.exprs[2]) || ((op == BinaryOp::Gt || op == BinaryOp::GtEq) && is_distance(
            *right,
            g.column,
            g.exprs[0],
            g.exprs[1],
        ) && *left == g.exprs[2]))
    } else {
        &&& g.exprs.len() == 4
        &&& e matches Expr::Func { name, args } && name@ == "geo_bbox"@ && args@.len() == 5 && (
        args@[0] matches Expr::Column(c) && c@ == g.column) && args@.skip(1) == g.exprs
    }
}

/// A condition is served by a geo index where it bounds a column's place, and
/// then by just that bound.
pub proof fn geo_conditions_bound_a_place(e: Expr, g: GeoView)
    ensures
        geo_of(e) == Some(g) <==> bounds_place(e, g),
{
    if let Expr::Func { name, args } = e {
        if args@.len() == 5 {
            let four = seq![args@[1], args@[2], args@[3], args@[4]];
            assert(args@.skip(1) =~= four);
        }
    }
    if bounds_place(e, g) && g.bounded_by_distance {
        if let Expr::Binary { op, left, right } = e {
            let near = op == BinaryOp::Lt || op == BinaryOp::LtEq;
            let call = if near {
                *left
            } else {
                *right
            };
            if let Expr::Func { name, args } = call {
                if args@.len() == 3 {
                    let radius = if near {
                        *right
                    } else {
                        *left
                    };
                    assert(g.exprs =~= seq![args@[1], args@[2], radius]);
                }
            }
        }
    }
}

/// The bounds of a filter are those of its conjuncts that have one, in order.
pub proof fn geo_bounds_are_those_of_the_conjuncts(es: Seq<Expr>)
    ensures
        geo_among(es) == es.filter(|e: Expr| geo_of(e) is Some).map_values(
            |e: Expr| geo_of(e)->0,
        ),
    decreases es.len(),
{
    reveal(Seq::filter);
    let p = |e: Expr| geo_of(e) is Some;
    let v = |e: Expr| geo_of(e)->0;
    if es.len() > 0 {
        geo_bounds_are_those_of_the_conjuncts(es.drop_last());
        assert(geo_among(es) =~= es.filter(p).map_values(v));
    } else {
        assert(es.filter(p).map_values(v) =~= Seq::<GeoView>::empty());
    }
}

/// Whether a row has a sample of a series.
pub open spec fn samples<F: Fn(&Expr, &Document) -> Result<Value, EngineError>>(
    f: F,
    e: Expr,
    name: Seq<char>,
) -> spec_fn(Fields) -> bool {
    |m: Fields| row_series(m) == name && is_number(evaluated(f, e, m)->Ok_0)
}

/// The sample of a row.
pub open spec fn sample_of<
    F: Fn(&Expr, &Document) -> Result<Value, EngineError>,
    T: Fn(&Value) -> Option<i64>,
>(f: F, t: T, e: Expr) -> spec_fn(Fields) -> (i64, Value) {
    |m: Fields| (row_time(t, m)->0, evaluated(f, e, m)->Ok_0)
}

/// The samples that a series has among some.
pub open spec fn samples_under(ss: Seq<SamplesView>, name: Seq<char>) -> Seq<(i64, Value)> {
    let p = series_place(ss, name);
    if p < ss.len() {
        ss[p].samples
    } else {
        Seq::empty()
    }
}

proof fn lemma_series_place(ss: Seq<SamplesView>, name: Seq<char>)
    ensures
        0 <= series_place(ss, name) <= ss.len(),
        series_place(ss, name) < ss.len() ==> ss[series_place(ss, name)].series == name,
        forall|i: int| 0 <= i < series_place(ss, name) ==> (#[trigger] ss[i]).series != name,
    decreases ss.len(),
{
    if ss.len() > 0 && ss[0].series != name {
        let rest = ss.skip(1);
        lemma_series_place(rest, name);
        assert forall|i: int| 0 <= i < series_place(ss, name) implies (#[trigger] ss[i]).series
            != name by {
            if i > 0 {
                assert(ss[i] == rest[i - 1]);
            }
        }
    }
}

/// Whether no series occurs twice and each has a sample.
pub open spec fn series_once(ss: Seq<SamplesView>) -> bool {
    &&& forall|i: int, j: int|
        0 <= i < j < ss.len() ==> (#[trigger] ss[i]).series != (#[trigger] ss[j]).series
    &&& forall|i: int| 0 <= i < ss.len() ==> (#[trigger] ss[i]).samples.len() > 0
}

proof fn lemma_with_sample(ss: Seq<SamplesView>, name: Seq<char>, s: (i64, Value), other: Seq<char>)
    requires
        series_once(ss),
    ensures
        series_once(crate::aggregate::with_sample(ss, name, s)),
        samples_under(crate::aggregate::with_sample(ss, name, s), other) == (if other == name {
            samples_under(ss, other).push(s)
        } else {
            samples_under(ss, other)
        }),
{
    let r = crate::aggregate::with_sample(ss, name, s);
    lemma_series_place(ss, name);
    lemma_series_place(ss, other);
    lemma_series_place(r, other);
    let a = series_place(ss, other);
    let b = series_place(r, other);
    assert(forall|i: int| 0 <= i < ss.len() ==> (#[trigger] r[i]).series == ss[i].series);
    if a < ss.len() {
        assert(r[a].series == other);
        if b < a {
            assert(ss[b].series == r[b].series);
        }
        assert(b == a);
    } else if other == name {
        assert(r[ss.len() as int].series == name);
        if b < ss.len() {
            assert(ss[b].series == r[b].series);
        }
        assert(b == ss.len());
        assert(samples_under(r, other) =~= samples_under(ss, other).push(s));
    } else {
        if b < r.len() {
            if b < ss.len() {
                assert(ss[b].series == r[b].series);
            }
        }
    }
    assert forall|i: int, j: int| 0 <= i < j < r.len() implies (#[trigger] r[i]).series != (
    #[trigger] r[j]).series by {
        if j < ss.len() {
            assert(ss[i].series != ss[j].series);
        }
    }
    assert forall|i: int| 0 <= i < r.len() implies (#[trigger] r[i]).samples.len() > 0 by {
        if i < ss.len() {
            assert(ss[i].samples.len() > 0);
        }
    }
}

/// The samples of a group are those of its rows that have a number, each at the
/// time of its row, parted by series and in the order of the rows. Every row
/// must have a time.
pub proof fn samples_are_parted_by_series<
    F: Fn(&Expr, &Document) -> Result<Value, EngineError>,
    T: Fn(&Value) -> Option<i64>,
>(f: F, t: T, e: Expr, ms: Seq<Fields>, name: Seq<char>)
    ensures
        samples_of(f, t, e, ms) is Ok <==> crate::aggregate_laws::all_timed(f, t, e, ms),
        samples_of(f, t, e, ms) matches Ok(ss) ==> series_once(ss) && samples_under(ss, name)
            == ms.filter(samples(f, e, name)).map_values(sample_of(f, t, e)),
    decreases ms.len(),
{
    reveal(Seq::filter);
    let p = samples(f, e, name);
    let v = sample_of(f, t, e);
    if ms.len() == 0 {
        assert(ms.filter(p).map_values(v) =~= Seq::<(i64, Value)>::empty());
    } else {
        let init = ms.drop_last();
        let n = ms.len() - 1;
        samples_are_parted_by_series(f, t, e, init, name);
        assert(ms[n] == ms.last());
        if samples_of(f, t, e, init) is Err {
            let i = choose|i: int|
                0 <= i < n && !(row_time(t, #[trigger] init[i]) is Some && evaluated(f, e, init[i]) is Ok);
            assert(!(row_time(t, ms[i]) is Some && evaluated(f, e, ms[i]) is Ok));
        } else {
            assert forall|i: int| 0 <= i < n implies row_time(t, #[trigger] ms[i]) is Some
                && evaluated(f, e, ms[i]) is Ok by {
                assert(row_time(t, init[i]) is Some && evaluated(f, e, init[i]) is Ok);
            }
        }
        if samples_of(f, t, e, ms) is Ok {
            let before = samples_of(f, t, e, init)->Ok_0;
            let x = evaluated(f, e, ms.last())->Ok_0;
            let s = (row_time(t, ms.last())->0, x);
            let own = row_series(ms.last());
            assert(v(ms.last()) == s);
            assert(p(ms.last()) == (own == name && is_number(x)));
            if is_number(x) {
                lemma_with_sample(before, own, s, name);
            }
            let kept = init.filter(p);
            if p(ms.last()) {
                assert(ms.filter(p) =~= kept.push(ms.last()));
                assert(kept.push(ms.last()).map_values(v) =~= kept.map_values(v).push(s));
            } else {
                assert(ms.filter(p) =~= kept);
            }
        }
    }
}

/// The number of a bucket's samples is that of the times that fall into it.
pub proof fn buckets_count_their_times(times: Seq<i64>, b: i64, bucket_ms: i64)
    ensures
        count_in(times, b, bucket_ms) == times.filter(
            |x: i64| bucket_of(x as int, bucket_ms as int) == b,
        ).len(),
    decreases times.len(),
{
    reveal(Seq::filter);
    if times.len() > 0 {
        buckets_count_their_times(times.drop_last(), b, bucket_ms);
    }
}

proof fn lemma_label_order()
    ensures
        is_strict_order(
            |a: (Seq<char>, Seq<char>), b: (Seq<char>, Seq<char>)| label_lt(a, b),
        ),
{
    let lt = |a: (Seq<char>, Seq<char>), b: (Seq<char>, Seq<char>)| label_lt(a, b);
    assert forall|a: (Seq<char>, Seq<char>)| !(#[trigger] lt(a, a)) by {
        lemma_seq_lt_irrefl(a.0);
        lemma_seq_lt_irrefl(a.1);
    }
    assert forall|a: (Seq<char>, Seq<char>), b: (Seq<char>, Seq<char>)| #[trigger] lt(
        a,
        b,
    ) implies !lt(b, a) by {
        lemma_seq_lt_irrefl(a.0);
        lemma_seq_lt_irrefl(a.1);
        if seq_lt(a.0, b.0) && seq_lt(b.0, a.0) {
            lemma_seq_lt_trans(a.0, b.0, a.0);
        }
        if seq_lt(a.1, b.1) && seq_lt(b.1, a.1) {
            lemma_seq_lt_trans(a.1, b.1, a.1);
        }
    }
    assert forall|
        a: (Seq<char>, Seq<char>),
        b: (Seq<char>, Seq<char>),
        c: (Seq<char>, Seq<char>),
    | !(#[trigger] lt(b, a)) && !(#[trigger] lt(c, b)) implies !lt(c, a) by {
        lemma_seq_lt_total(a.0, b.0);
        lemma_seq_lt_total(b.0, c.0);
        lemma_seq_lt_total(a.1, b.1);
        lemma_seq_lt_total(b.1, c.1);
        lemma_seq_lt_irrefl(a.0);
        if seq_lt(c.0, a.0) {
            if seq_lt(a.0, b.0) {
                lemma_seq_lt_trans(c.0, a.0, b.0);
            }
        }
        if seq_lt(c.1, a.1) {
            if seq_lt(a.1, b.1) {
                lemma_seq_lt_trans(c.1, a.1, b.1);
            }
        }
        if seq_lt(a.0, b.0) && seq_lt(b.0, c.0) {
            lemma_seq_lt_trans(a.0, b.0, c.0);
        }
    }
}

proof fn lemma_base_labels(labels: Seq<(String, String)>)
    ensures
        base_labels(labels) == labels.filter(
            |l: (String, String)| l.0@ != "__field__"@,
        ).map_values(|l: (String, String)| (l.0@, l.1@)),
    decreases labels.len(),
{
    reveal(Seq::filter);
    let p = |l: (String, String)| l.0@ != "__field__"@;
    let v = |l: (String, String)| (l.0@, l.1@);
    if labels.len() > 0 {
        lemma_base_labels(labels.drop_last());
        assert(base_labels(labels) =~= labels.filter(p).map_values(v));
    } else {
        assert(labels.filter(p).map_values(v) =~= Seq::<(Seq<char>, Seq<char>)>::empty());
    }
}

/// A rolled-up series has the labels of its series but for the field, whose
/// name gets the part's name behind it; and its labels stand in order.
pub proof fn rolled_up_series_keep_their_labels(labels: Seq<(String, String)>, p: RollupPart)
    ensures
        crate::order::in_order(
            part_labels(labels, p),
            |a: (Seq<char>, Seq<char>), b: (Seq<char>, Seq<char>)| label_lt(a, b),
        ),
        part_labels(labels, p).to_multiset() == labels.filter(
            |l: (String, String)| l.0@ != "__field__"@,
        ).map_values(|l: (String, String)| (l.0@, l.1@)).push(
            ("__field__"@, series_field(labels) + "_"@ + part_name(p)),
        ).to_multiset(),
{
    lemma_label_order();
    lemma_base_labels(labels);
    stable_sort_is_a_sort(
        base_labels(labels).push(("__field__"@, series_field(labels) + "_"@ + part_name(p))),
        |a: (Seq<char>, Seq<char>), b: (Seq<char>, Seq<char>)| label_lt(a, b),
    );
}

/// The field of a series is what its first field label says, and `value` where
/// it has none.
pub proof fn a_series_field_is_its_label(labels: Seq<(String, String)>, i: int)
    ensures
        0 <= i < labels.len() && labels[i].0@ == "__field__"@ && (forall|j: int|
            0 <= j < i ==> (#[trigger] labels[j]).0@ != "__field__"@) ==> series_field(labels)
            == labels[i].1@,
        (forall|j: int| 0 <= j < labels.len() ==> (#[trigger] labels[j]).0@ != "__field__"@)
            ==> series_field(labels) == "value"@,
    decreases labels.len(),
{
    if labels.len() > 0 && labels[0].0@ != "__field__"@ {
        let rest = labels.skip(1);
        a_series_field_is_its_label(rest, i - 1);
        if 0 <= i < labels.len() && labels[i].0@ == "__field__"@ && (forall|j: int|
            0 <= j < i ==> (#[trigger] labels[j]).0@ != "__field__"@) {
            assert(rest[i - 1] == labels[i]);
            assert forall|j: int| 0 <= j < i - 1 implies (#[trigger] rest[j]).0@ != "__field__"@ by {
                assert(rest[j] == labels[j + 1]);
            }
        }
        if forall|j: int| 0 <= j < labels.len() ==> (#[trigger] labels[j]).0@ != "__field__"@ {
            assert forall|j: int| 0 <= j < rest.len() implies (#[trigger] rest[j]).0@
                != "__field__"@ by {
                assert(rest[j] == labels[j + 1]);
            }
        }
    }
}

} // verus!
