//! What sorting means: one sort key stands before another by the first of its
//! values that the ranking tells apart, and sorted documents stand so.

use vstd::prelude::*;

use crate::ast::Expr;
use crate::ast::OrderKey;
use crate::error::EngineError;
use crate::execute::evaluated;
use crate::model::Fields;
use crate::order::first_few;
use crate::order::key_rank;
use crate::order::lemma_slot_for;
use crate::order::places;
use crate::order::rank_of;
use crate::order::row_rank;
use crate::order::stable_sorted;
use crate::order::Rank;
use crate::results::at_places;
use crate::results::key_before;
use crate::results::key_order;
use crate::results::key_tuple;
use crate::results::key_tuples;
use crate::results::order_directions;
use crate::results::order_exprs;
use crate::results::sorted_docs;
use crate::value::Document;
use crate::value::Value;

verus! {

/// Whether a ranking orders values: two values stand the other way round seen
/// from the other side, and standing no later carries over.
pub open spec fn orders_values<G: Fn(&Value, &Value) -> Rank>(g: G) -> bool {
    &&& forall|a: Value, b: Value|
        #![trigger rank_of(g, a, b)]
        (rank_of(g, a, b) == Rank::Less <==> rank_of(g, b, a) == Rank::Greater) && (rank_of(
            g,
            a,
            b,
        ) == Rank::Equal <==> rank_of(g, b, a) == Rank::Equal)
    &&& forall|a: Value, b: Value, c: Value|
        #![trigger rank_of(g, a, b), rank_of(g, b, c)]
        rank_of(g, a, b) != Rank::Greater && rank_of(g, b, c) != Rank::Greater ==> rank_of(g, a, c)
            != Rank::Greater
}

/// Whether one value stands before another under a sort key: as the ranking
/// says, the other way round where the key descends. `NULL` stands behind every
/// other value, and so before it where the key descends.
pub open spec fn value_precedes<G: Fn(&Value, &Value) -> Rank>(
    g: G,
    a: Value,
    b: Value,
    descending: bool,
) -> bool {
    let low = if descending {
        b
    } else {
        a
    };
    let high = if descending {
        a
    } else {
        b
    };
    !(low is Null) && (high is Null || rank_of(g, low, high) == Rank::Less)
}

/// Whether neither of two values stands before the other.
pub open spec fn values_tie<G: Fn(&Value, &Value) -> Rank>(
    g: G,
    a: Value,
    b: Value,
    descending: bool,
) -> bool {
    !value_precedes(g, a, b, descending) && !value_precedes(g, b, a, descending)
}

/// Whether one sort key stands before another: some value of it stands before
/// the other's, and all the values in front of that one tie.
pub open spec fn key_precedes<G: Fn(&Value, &Value) -> Rank>(
    g: G,
    a: Seq<Value>,
    b: Seq<Value>,
    descending: Seq<bool>,
) -> bool {
    exists|p: int|
        0 <= p < descending.len() && #[trigger] value_precedes(g, a[p], b[p], descending[p]) && (
        forall|q: int| 0 <= q < p ==> #[trigger] values_tie(g, a[q], b[q], descending[q]))
}

/// The sort key of a document: the values of the `ORDER BY` expressions on it.
pub open spec fn sort_key_of<F: Fn(&Expr, &Document) -> Result<Value, EngineError>>(
    f: F,
    order_by: Seq<OrderKey>,
    m: Fields,
) -> Seq<Value> {
    Seq::new(order_by.len(), |i: int| evaluated(f, order_by[i].expr, m)->Ok_0)
}

/// Whether every `ORDER BY` expression has a value on a document.
pub open spec fn has_sort_key<F: Fn(&Expr, &Document) -> Result<Value, EngineError>>(
    f: F,
    order_by: Seq<OrderKey>,
    m: Fields,
) -> bool {
    forall|i: int| 0 <= i < order_by.len() ==> (#[trigger] evaluated(f, order_by[i].expr, m)) is Ok
}

/// Whether one document stands before another by `ORDER BY`.
pub open spec fn doc_precedes<
    F: Fn(&Expr, &Document) -> Result<Value, EngineError>,
    G: Fn(&Value, &Value) -> Rank,
>(f: F, g: G, order_by: Seq<OrderKey>, a: Fields, b: Fields) -> bool {
    key_precedes(
        g,
        sort_key_of(f, order_by, a),
        sort_key_of(f, order_by, b),
        Seq::new(order_by.len(), |i: int| order_by[i].descending),
    )
}

/// Whether places name documents of a list, none twice.
pub open spec fn are_places(ps: Seq<int>, n: nat) -> bool {
    &&& ps.no_duplicates()
    &&& forall|i: int| 0 <= i < ps.len() ==> 0 <= #[trigger] ps[i] < n
}

/// Whether the documents at places stand by `ORDER BY`: none before one that
/// comes earlier, and those that tie as they were.
pub open spec fn stand_sorted<
    F: Fn(&Expr, &Document) -> Result<Value, EngineError>,
    G: Fn(&Value, &Value) -> Rank,
>(f: F, g: G, order_by: Seq<OrderKey>, ms: Seq<Fields>, ps: Seq<int>) -> bool {
    forall|i: int, j: int|
        0 <= i < j < ps.len() ==> !doc_precedes(f, g, order_by, ms[#[trigger] ps[j]], ms[#[trigger] ps[i]])
            && (doc_precedes(f, g, order_by, ms[ps[i]], ms[ps[j]]) || ps[i] < ps[j])
}

/// A sort key's rank of two values says which stands before the other.
pub proof fn key_rank_is_precedence<G: Fn(&Value, &Value) -> Rank>(
    g: G,
    a: Value,
    b: Value,
    descending: bool,
)
    requires
        orders_values(g),
    ensures
        key_rank(g, a, b, descending) == Rank::Less <==> value_precedes(g, a, b, descending),
        key_rank(g, a, b, descending) == Rank::Greater <==> value_precedes(g, b, a, descending),
        key_rank(g, a, b, descending) == Rank::Equal <==> values_tie(g, a, b, descending),
{
    assert(rank_of(g, a, b) == Rank::Less <==> rank_of(g, b, a) == Rank::Greater);
    assert(rank_of(g, b, a) == Rank::Less <==> rank_of(g, a, b) == Rank::Greater);
}

/// Rows rank by the first value of their sort keys that tells them apart.
pub proof fn row_rank_is_precedence<G: Fn(&Value, &Value) -> Rank>(
    g: G,
    a: Seq<Value>,
    b: Seq<Value>,
    descending: Seq<bool>,
)
    requires
        orders_values(g),
        a.len() == descending.len(),
        b.len() == descending.len(),
    ensures
        row_rank(g, a, b, descending) == Rank::Less <==> key_precedes(g, a, b, descending),
        row_rank(g, a, b, descending) == Rank::Greater <==> key_precedes(g, b, a, descending),
    decreases a.len(),
{
    lemma_row_rank_precedes(g, a, b, descending);
    lemma_row_rank_turned(g, a, b, descending);
    lemma_row_rank_precedes(g, b, a, descending);
}

proof fn lemma_row_rank_precedes<G: Fn(&Value, &Value) -> Rank>(
    g: G,
    a: Seq<Value>,
    b: Seq<Value>,
    descending: Seq<bool>,
)
    requires
        orders_values(g),
        a.len() == descending.len(),
        b.len() == descending.len(),
    ensures
        row_rank(g, a, b, descending) == Rank::Less <==> key_precedes(g, a, b, descending),
    decreases a.len(),
{
    if a.len() > 0 {
        let x = a.drop_first();
        let y = b.drop_first();
        let d = descending.drop_first();
        key_rank_is_precedence(g, a[0], b[0], descending[0]);
        lemma_row_rank_precedes(g, x, y, d);
        if key_rank(g, a[0], b[0], descending[0]) == Rank::Equal {
            assert(values_tie(g, a[0], b[0], descending[0]));
            if key_precedes(g, x, y, d) {
                let p = choose|p: int|
                    0 <= p < d.len() && #[trigger] value_precedes(g, x[p], y[p], d[p]) && (forall|
                        q: int,
                    |
                        0 <= q < p ==> #[trigger] values_tie(g, x[q], y[q], d[q]));
                assert(value_precedes(g, a[p + 1], b[p + 1], descending[p + 1]));
                assert forall|q: int| 0 <= q < p + 1 implies #[trigger] values_tie(
                    g,
                    a[q],
                    b[q],
                    descending[q],
                ) by {
                    if q > 0 {
                        assert(values_tie(g, x[q - 1], y[q - 1], d[q - 1]));
                    }
                }
            }
            if key_precedes(g, a, b, descending) {
                let p = choose|p: int|
                    0 <= p < descending.len() && #[trigger] value_precedes(
                        g,
                        a[p],
                        b[p],
                        descending[p],
                    ) && (forall|q: int|
                        0 <= q < p ==> #[trigger] values_tie(g, a[q], b[q], descending[q]));
                assert(p > 0);
                assert(value_precedes(g, x[p - 1], y[p - 1], d[p - 1]));
                assert forall|q: int| 0 <= q < p - 1 implies #[trigger] values_tie(
                    g,
                    x[q],
                    y[q],
                    d[q],
                ) by {
                    assert(values_tie(g, a[q + 1], b[q + 1], descending[q + 1]));
                }
            }
        } else {
            if key_precedes(g, a, b, descending) {
                let p = choose|p: int|
                    0 <= p < descending.len() && #[trigger] value_precedes(
                        g,
                        a[p],
                        b[p],
                        descending[p],
                    ) && (forall|q: int|
                        0 <= q < p ==> #[trigger] values_tie(g, a[q], b[q], descending[q]));
                if p > 0 {
                    assert(values_tie(g, a[0], b[0], descending[0]));
                }
            }
            if value_precedes(g, a[0], b[0], descending[0]) {
                assert(key_precedes(g, a, b, descending));
            }
        }
    }
}

proof fn lemma_row_rank_turned<G: Fn(&Value, &Value) -> Rank>(
    g: G,
    a: Seq<Value>,
    b: Seq<Value>,
    descending: Seq<bool>,
)
    requires
        orders_values(g),
        a.len() == descending.len(),
        b.len() == descending.len(),
    ensures
        row_rank(g, a, b, descending) == Rank::Less <==> row_rank(g, b, a, descending)
            == Rank::Greater,
        row_rank(g, b, a, descending) == Rank::Less <==> row_rank(g, a, b, descending)
            == Rank::Greater,
    decreases a.len(),
{
    if a.len() > 0 {
        key_rank_is_precedence(g, a[0], b[0], descending[0]);
        key_rank_is_precedence(g, b[0], a[0], descending[0]);
        lemma_row_rank_turned(g, a.drop_first(), b.drop_first(), descending.drop_first());
    }
}

pub proof fn lemma_key_rank_chain<G: Fn(&Value, &Value) -> Rank>(
    g: G,
    a: Value,
    b: Value,
    c: Value,
    descending: bool,
)
    requires
        orders_values(g),
    ensures
        ({
            let ab = key_rank(g, a, b, descending);
            let bc = key_rank(g, b, c, descending);
            let ac = key_rank(g, a, c, descending);
            &&& ab != Rank::Greater && bc != Rank::Greater ==> ac != Rank::Greater
            &&& ab != Rank::Greater && bc != Rank::Greater && ac == Rank::Equal ==> ab == Rank::Equal
                && bc == Rank::Equal
        }),
{
    assert(rank_of(g, a, b) == Rank::Less <==> rank_of(g, b, a) == Rank::Greater);
    assert(rank_of(g, b, c) == Rank::Less <==> rank_of(g, c, b) == Rank::Greater);
    assert(rank_of(g, a, c) == Rank::Less <==> rank_of(g, c, a) == Rank::Greater);
    assert(rank_of(g, b, a) == Rank::Less <==> rank_of(g, a, b) == Rank::Greater);
    assert(rank_of(g, c, b) == Rank::Less <==> rank_of(g, b, c) == Rank::Greater);
    assert(rank_of(g, c, a) == Rank::Less <==> rank_of(g, a, c) == Rank::Greater);
}

proof fn lemma_row_rank_chain<G: Fn(&Value, &Value) -> Rank>(
    g: G,
    a: Seq<Value>,
    b: Seq<Value>,
    c: Seq<Value>,
    descending: Seq<bool>,
)
    requires
        orders_values(g),
        a.len() == descending.len(),
        b.len() == descending.len(),
        c.len() == descending.len(),
        row_rank(g, a, b, descending) != Rank::Greater,
        row_rank(g, b, c, descending) != Rank::Greater,
    ensures
        row_rank(g, a, c, descending) != Rank::Greater,
    decreases a.len(),
{
    if a.len() > 0 {
        lemma_key_rank_chain(g, a[0], b[0], c[0], descending[0]);
        if key_rank(g, a[0], c[0], descending[0]) == Rank::Equal {
            lemma_row_rank_chain(
                g,
                a.drop_first(),
                b.drop_first(),
                c.drop_first(),
                descending.drop_first(),
            );
        }
    }
}

/// Whether `lt` orders the numbers below `n`.
pub open spec fn orders_places(lt: spec_fn(int, int) -> bool, n: int) -> bool {
    &&& forall|a: int, b: int|
        0 <= a < n && 0 <= b < n && #[trigger] lt(a, b) ==> !lt(b, a)
    &&& forall|a: int, b: int, c: int|
        0 <= a < n && 0 <= b < n && 0 <= c < n && !(#[trigger] lt(b, a)) && !(#[trigger] lt(c, b))
            ==> !lt(c, a)
}

/// Whether a run of places stands by `lt`, ties going up.
pub open spec fn places_stand(lt: spec_fn(int, int) -> bool, r: Seq<int>) -> bool {
    forall|i: int, j: int|
        0 <= i < j < r.len() ==> !lt(#[trigger] r[j], #[trigger] r[i]) && (lt(r[i], r[j]) || r[i]
            < r[j])
}

pub proof fn lemma_places_sorted(lt: spec_fn(int, int) -> bool, k: nat, n: nat)
    requires
        orders_places(lt, n as int),
        k <= n,
    ensures
        stable_sorted(places(k), lt).len() == k,
        are_places(stable_sorted(places(k), lt), k),
        places_stand(lt, stable_sorted(places(k), lt)),
    decreases k,
{
    if k > 0 {
        let init = places(k).drop_last();
        assert(init =~= places((k - 1) as nat));
        lemma_places_sorted(lt, (k - 1) as nat, n);
        let s = stable_sorted(init, lt);
        let x = k - 1;
        assert(places(k).last() == x);
        lemma_slot_for(s, x, lt);
        let p = crate::order::slot_for(s, x, lt);
        let r = stable_sorted(places(k), lt);
        assert(r == s.insert(p, x));
        assert forall|i: int, j: int| 0 <= i < j < r.len() implies !lt(
            #[trigger] r[j],
            #[trigger] r[i],
        ) && (lt(r[i], r[j]) || r[i] < r[j]) by {
            if i == p {
                assert(r[j] == s[j - 1]);
                assert(lt(x, s[p]));
                if j - 1 > p {
                    assert(!lt(s[j - 1], s[p]));
                    if !lt(x, s[j - 1]) {
                        assert(!lt(x, s[p]));
                    }
                }
                assert(lt(x, s[j - 1]));
            } else if j == p {
                assert(r[i] == s[i]);
            } else {
                let i0 = if i < p {
                    i
                } else {
                    i - 1
                };
                let j0 = if j < p {
                    j
                } else {
                    j - 1
                };
                assert(r[i] == s[i0] && r[j] == s[j0]);
            }
        }
        assert forall|i: int| 0 <= i < r.len() implies 0 <= #[trigger] r[i] < k by {
            if i < p {
                assert(r[i] == s[i]);
            } else if i > p {
                assert(r[i] == s[i - 1]);
            }
        }
        assert forall|i: int, j: int| 0 <= i < j < r.len() implies r[i] != r[j] by {
            let i0 = if i < p {
                i
            } else {
                i - 1
            };
            let j0 = if j < p {
                j
            } else {
                j - 1
            };
            if i == p {
                assert(r[j] == s[j0]);
            } else if j == p {
                assert(r[i] == s[i0]);
            } else {
                assert(r[i] == s[i0] && r[j] == s[j0]);
            }
        }
    }
}

/// A sort key holds the values of its expressions.
pub proof fn key_tuple_is_the_values<F: Fn(&Expr, &Document) -> Result<Value, EngineError>>(
    f: F,
    exprs: Seq<Expr>,
    m: Fields,
    n: nat,
)
    requires
        n <= exprs.len(),
    ensures
        key_tuple(f, exprs, m, n) is Ok <==> forall|i: int|
            0 <= i < n ==> (#[trigger] evaluated(f, exprs[i], m)) is Ok,
        key_tuple(f, exprs, m, n) matches Ok(vs) ==> vs.len() == n && forall|i: int|
            0 <= i < n ==> evaluated(f, exprs[i], m) == Ok::<Value, EngineError>(#[trigger] vs[i]),
    decreases n,
{
    if n > 0 {
        key_tuple_is_the_values(f, exprs, m, (n - 1) as nat);
        if key_tuple(f, exprs, m, n) is Ok {
            assert forall|i: int| 0 <= i < n implies (#[trigger] evaluated(f, exprs[i], m)) is Ok by {
                if i < n - 1 {
                    let vs = key_tuple(f, exprs, m, (n - 1) as nat)->Ok_0;
                    assert(evaluated(f, exprs[i], m) == Ok::<Value, EngineError>(vs[i]));
                }
            }
        } else if key_tuple(f, exprs, m, (n - 1) as nat) is Err {
            let i = choose|i: int| 0 <= i < n - 1 && !((#[trigger] evaluated(f, exprs[i], m)) is Ok);
            assert(!(evaluated(f, exprs[i], m) is Ok));
        } else {
            assert(!(evaluated(f, exprs[n - 1], m) is Ok));
        }
    }
}

proof fn lemma_key_of_doc<F: Fn(&Expr, &Document) -> Result<Value, EngineError>>(
    f: F,
    order_by: Seq<OrderKey>,
    m: Fields,
)
    ensures
        key_tuple(f, order_exprs(order_by), m, order_exprs(order_by).len()) is Ok <==> has_sort_key(
            f,
            order_by,
            m,
        ),
        key_tuple(f, order_exprs(order_by), m, order_exprs(order_by).len()) matches Ok(vs) ==> vs
            == sort_key_of(f, order_by, m),
{
    let es = order_exprs(order_by);
    key_tuple_is_the_values(f, es, m, es.len());
    assert forall|i: int| 0 <= i < order_by.len() implies #[trigger] es[i] == order_by[i].expr by {}
    if has_sort_key(f, order_by, m) {
        assert forall|i: int| 0 <= i < es.len() implies (#[trigger] evaluated(f, es[i], m)) is Ok by {
            assert(evaluated(f, order_by[i].expr, m) is Ok);
        }
    }
    if key_tuple(f, es, m, es.len()) is Ok {
        assert forall|i: int| 0 <= i < order_by.len() implies (#[trigger] evaluated(
            f,
            order_by[i].expr,
            m,
        )) is Ok by {
            assert(es[i] == order_by[i].expr);
        }
        assert(key_tuple(f, es, m, es.len())->Ok_0 =~= sort_key_of(f, order_by, m));
    }
}

/// Documents have sort keys where each of them has one, and each has its own.
pub proof fn sort_keys_are_of_the_documents<F: Fn(&Expr, &Document) -> Result<Value, EngineError>>(
    f: F,
    order_by: Seq<OrderKey>,
    ms: Seq<Fields>,
)
    ensures
        key_tuples(f, order_exprs(order_by), ms) is Ok <==> forall|i: int|
            0 <= i < ms.len() ==> has_sort_key(f, order_by, #[trigger] ms[i]),
        key_tuples(f, order_exprs(order_by), ms) matches Ok(ks) ==> ks.len() == ms.len() && forall|
            i: int,
        |
            0 <= i < ms.len() ==> #[trigger] ks[i] == sort_key_of(f, order_by, ms[i]),
    decreases ms.len(),
{
    if ms.len() > 0 {
        let init = ms.drop_last();
        sort_keys_are_of_the_documents(f, order_by, init);
        lemma_key_of_doc(f, order_by, ms.last());
        if key_tuples(f, order_exprs(order_by), init) is Err {
            let i = choose|i: int|
                0 <= i < init.len() && !has_sort_key(f, order_by, #[trigger] init[i]);
            assert(!has_sort_key(f, order_by, ms[i]));
        } else {
            assert forall|i: int| 0 <= i < ms.len() - 1 implies has_sort_key(
                f,
                order_by,
                #[trigger] ms[i],
            ) by {
                assert(has_sort_key(f, order_by, init[i]));
            }
            assert(ms[ms.len() - 1] == ms.last());
        }
        if key_tuples(f, order_exprs(order_by), ms) is Ok {
            let ks = key_tuples(f, order_exprs(order_by), ms)->Ok_0;
            let before = key_tuples(f, order_exprs(order_by), init)->Ok_0;
            assert forall|i: int| 0 <= i < ms.len() implies #[trigger] ks[i] == sort_key_of(
                f,
                order_by,
                ms[i],
            ) by {
                if i < ms.len() - 1 {
                    assert(before[i] == sort_key_of(f, order_by, init[i]));
                }
            }
        }
    }
}

/// Whether sort keys at places stand in order: none before one that comes
/// earlier, and those that tie as they were.
pub open spec fn keys_stand<G: Fn(&Value, &Value) -> Rank>(
    g: G,
    ks: Seq<Seq<Value>>,
    descending: Seq<bool>,
    ps: Seq<int>,
) -> bool {
    forall|i: int, j: int|
        0 <= i < j < ps.len() ==> !key_precedes(
            g,
            ks[#[trigger] ps[j]],
            ks[#[trigger] ps[i]],
            descending,
        ) && (key_precedes(g, ks[ps[i]], ks[ps[j]], descending) || ps[i] < ps[j])
}

/// The order of sort keys names each place once, no key before one that comes
/// earlier and ties going up; a cut keeps the first of them.
pub proof fn keys_are_sorted<G: Fn(&Value, &Value) -> Rank>(
    g: G,
    ks: Seq<Seq<Value>>,
    descending: Seq<bool>,
    top: Option<usize>,
)
    requires
        orders_values(g),
        forall|i: int| 0 <= i < ks.len() ==> (#[trigger] ks[i]).len() == descending.len(),
    ensures
        key_order(g, ks, descending, None).len() == ks.len(),
        are_places(key_order(g, ks, descending, None), ks.len()),
        keys_stand(g, ks, descending, key_order(g, ks, descending, None)),
        key_order(g, ks, descending, top) == first_few(
            key_order(g, ks, descending, None),
            match top {
                Some(k) => k as nat,
                None => ks.len(),
            },
        ),
{
    let ds = descending;
    let lt = |a: int, b: int| key_before(g, ks, ds, a, b);
    let n = ks.len();
    assert forall|a: int, b: int| 0 <= a < n && 0 <= b < n implies #[trigger] lt(a, b)
        == key_precedes(g, ks[a], ks[b], ds) by {
        row_rank_is_precedence(g, ks[a], ks[b], ds);
    }
    assert forall|a: int, b: int| 0 <= a < n && 0 <= b < n && #[trigger] lt(a, b) implies !lt(
        b,
        a,
    ) by {
        assert(ks[a].len() == ds.len() && ks[b].len() == ds.len());
        lemma_row_rank_turned(g, ks[a], ks[b], ds);
    }
    assert forall|a: int, b: int, c: int|
        0 <= a < n && 0 <= b < n && 0 <= c < n && !(#[trigger] lt(b, a)) && !(#[trigger] lt(
            c,
            b,
        )) implies !lt(c, a) by {
        assert(ks[a].len() == ds.len() && ks[b].len() == ds.len() && ks[c].len() == ds.len());
        lemma_row_rank_turned(g, ks[b], ks[a], ds);
        lemma_row_rank_turned(g, ks[c], ks[b], ds);
        lemma_row_rank_turned(g, ks[c], ks[a], ds);
        lemma_row_rank_chain(g, ks[a], ks[b], ks[c], ds);
    }
    lemma_places_sorted(lt, n, n);
    let r = stable_sorted(places(n), lt);
    assert(key_order(g, ks, ds, None) == r);
    assert forall|i: int, j: int| 0 <= i < j < r.len() implies !key_precedes(
        g,
        ks[#[trigger] r[j]],
        ks[#[trigger] r[i]],
        ds,
    ) && (key_precedes(g, ks[r[i]], ks[r[j]], ds) || r[i] < r[j]) by {
        assert(!lt(r[j], r[i]));
        assert(lt(r[i], r[j]) || r[i] < r[j]);
    }
}

/// The order of documents' sort keys is an order of the documents.
pub proof fn lemma_key_order<
    F: Fn(&Expr, &Document) -> Result<Value, EngineError>,
    G: Fn(&Value, &Value) -> Rank,
>(f: F, g: G, order_by: Seq<OrderKey>, ms: Seq<Fields>, ks: Seq<Seq<Value>>, top: Option<usize>)
    requires
        orders_values(g),
        key_tuples(f, order_exprs(order_by), ms) == Ok::<Seq<Seq<Value>>, EngineError>(ks),
    ensures
        key_order(g, ks, order_directions(order_by), None).len() == ms.len(),
        are_places(key_order(g, ks, order_directions(order_by), None), ms.len()),
        stand_sorted(f, g, order_by, ms, key_order(g, ks, order_directions(order_by), None)),
        key_order(g, ks, order_directions(order_by), top) == first_few(
            key_order(g, ks, order_directions(order_by), None),
            match top {
                Some(k) => k as nat,
                None => ks.len(),
            },
        ),
{
    let ds = order_directions(order_by);
    sort_keys_are_of_the_documents(f, order_by, ms);
    assert(ds =~= Seq::new(order_by.len(), |i: int| order_by[i].descending));
    assert forall|i: int| 0 <= i < ks.len() implies (#[trigger] ks[i]).len() == ds.len() by {
        assert(ks[i] == sort_key_of(f, order_by, ms[i]));
    }
    keys_are_sorted(g, ks, ds, top);
    let r = key_order(g, ks, ds, None);
    assert forall|i: int, j: int| 0 <= i < j < r.len() implies !doc_precedes(
        f,
        g,
        order_by,
        ms[#[trigger] r[j]],
        ms[#[trigger] r[i]],
    ) && (doc_precedes(f, g, order_by, ms[r[i]], ms[r[j]]) || r[i] < r[j]) by {
        assert(ks[r[i]] == sort_key_of(f, order_by, ms[r[i]]));
        assert(ks[r[j]] == sort_key_of(f, order_by, ms[r[j]]));
        assert(!key_precedes(g, ks[r[j]], ks[r[i]], ds));
    }
}

/// Sorting documents by `ORDER BY` moves them about and no more: the sorted
/// documents are those there were, each once, in the order of their sort keys,
/// and those whose keys tie stay as they stood. Where only the first few are
/// wanted they are the first few of these.
pub proof fn documents_are_sorted<
    F: Fn(&Expr, &Document) -> Result<Value, EngineError>,
    G: Fn(&Value, &Value) -> Rank,
>(f: F, g: G, order_by: Seq<OrderKey>, ms: Seq<Fields>, top: Option<usize>) -> (ps: Seq<int>)
    requires
        orders_values(g),
        order_by.len() > 0,
    ensures
        sorted_docs(f, g, order_exprs(order_by), order_directions(order_by), ms, top) is Ok
            <==> forall|i: int| 0 <= i < ms.len() ==> has_sort_key(f, order_by, #[trigger] ms[i]),
        sorted_docs(f, g, order_exprs(order_by), order_directions(order_by), ms, top) matches Ok(ds)
            ==> {
            &&& ps.len() == ms.len()
            &&& are_places(ps, ms.len())
            &&& stand_sorted(f, g, order_by, ms, ps)
            &&& ds.len() == (match top {
                Some(k) => if k < ms.len() {
                    k as nat
                } else {
                    ms.len()
                },
                None => ms.len(),
            })
            &&& forall|i: int| 0 <= i < ds.len() ==> #[trigger] ds[i] == ms[ps[i]]
        },
{
    sort_keys_are_of_the_documents(f, order_by, ms);
    let out = sorted_docs(f, g, order_exprs(order_by), order_directions(order_by), ms, top);
    if out is Ok {
        let ks = key_tuples(f, order_exprs(order_by), ms)->Ok_0;
        lemma_key_order(f, g, order_by, ms, ks, top);
        let ds = order_directions(order_by);
        let ps = key_order(g, ks, ds, None);
        ps
    } else {
        Seq::empty()
    }
}

/// Sorting down to the first few gives the first few of the whole.
pub proof fn lemma_sorted_cut<
    F: Fn(&Expr, &Document) -> Result<Value, EngineError>,
    G: Fn(&Value, &Value) -> Rank,
>(f: F, g: G, order_by: Seq<OrderKey>, ms: Seq<Fields>, top: Option<usize>)
    requires
        orders_values(g),
        order_by.len() > 0,
        sorted_docs(f, g, order_exprs(order_by), order_directions(order_by), ms, None) is Ok,
    ensures
        sorted_docs(f, g, order_exprs(order_by), order_directions(order_by), ms, top) == Ok::<
            Seq<Fields>,
            EngineError,
        >(
            first_few(
                sorted_docs(
                    f,
                    g,
                    order_exprs(order_by),
                    order_directions(order_by),
                    ms,
                    None,
                )->Ok_0,
                match top {
                    Some(k) => k as nat,
                    None => ms.len(),
                },
            ),
        ),
{
    let ks = key_tuples(f, order_exprs(order_by), ms)->Ok_0;
    sort_keys_are_of_the_documents(f, order_by, ms);
    lemma_key_order(f, g, order_by, ms, ks, top);
    let ds = order_directions(order_by);
    let n = match top {
        Some(k) => k as nat,
        None => ms.len(),
    };
    assert(at_places(ms, key_order(g, ks, ds, top)) =~= first_few(
        at_places(ms, key_order(g, ks, ds, None)),
        n,
    ));
}

} // verus!
