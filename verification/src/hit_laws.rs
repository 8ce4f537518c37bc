//! What becomes of the hits of a search: which of them have rows, how many are
//! taken, and how near ones are put in order.

use vstd::prelude::*;

use crate::ast::Expr;
use crate::backfill::doc_of;
use crate::bytes::bytes_lt;
use crate::bytes::lemma_bytes_lt_irrefl;
use crate::bytes::lemma_bytes_lt_total;
use crate::bytes::lemma_bytes_lt_trans;
use crate::error::EngineError;
use crate::error::ErrorView;
use crate::hits::candidate;
use crate::hits::candidates;
use crate::hits::closer;
use crate::hits::closest;
use crate::hits::exact_of;
use crate::hits::filter_says;
use crate::hits::first_seen;
use crate::hits::hit_before;
use crate::hits::outside_of;
use crate::hits::rescored;
use crate::hits::resolved_hits;
use crate::hits::row_of;
use crate::hits::suggested_column;
use crate::hits::texty_columns;
use crate::hits::FieldKind;
use crate::order::is_strict_order;
use crate::order::places;
use crate::order::stable_sort_is_a_sort;
use crate::order::stable_sorted;
use crate::sort_laws::are_places;
use crate::sort_laws::lemma_places_sorted;

verus! {

/// Whether a hit has a row.
pub open spec fn hit_has_row<D, X, F: Fn(&Vec<u8>) -> Result<Option<D>, EngineError>>(
    f: F,
) -> spec_fn((Vec<u8>, X)) -> bool {
    |h: (Vec<u8>, X)| row_of(f, h.0) matches Ok(Some(_))
}

/// A hit with its row.
pub open spec fn hit_with_row<D, X, F: Fn(&Vec<u8>) -> Result<Option<D>, EngineError>>(
    f: F,
) -> spec_fn((Vec<u8>, X)) -> (Seq<u8>, D, X) {
    |h: (Vec<u8>, X)| (h.0@, row_of(f, h.0)->Ok_0->0, h.1)
}

/// The hits that have rows, with them.
pub open spec fn hits_with_rows<D, X, F: Fn(&Vec<u8>) -> Result<Option<D>, EngineError>>(
    f: F,
    hits: Seq<(Vec<u8>, X)>,
) -> Seq<(Seq<u8>, D, X)> {
    hits.filter(hit_has_row(f)).map_values(hit_with_row(f))
}

proof fn lemma_hits_first<D, X, F: Fn(&Vec<u8>) -> Result<Option<D>, EngineError>>(
    f: F,
    hits: Seq<(Vec<u8>, X)>,
)
    requires
        hits.len() > 0,
    ensures
        hits_with_rows(f, hits) == (if row_of(f, hits[0].0) matches Ok(Some(_)) {
            seq![(hits[0].0@, row_of(f, hits[0].0)->Ok_0->0, hits[0].1)] + hits_with_rows(
                f,
                hits.skip(1),
            )
        } else {
            hits_with_rows(f, hits.skip(1))
        }),
{
    reveal(Seq::filter);
    let p = hit_has_row::<D, X, F>(f);
    let v = hit_with_row::<D, X, F>(f);
    let one = seq![hits[0]];
    assert(hits =~= one + hits.skip(1));
    Seq::filter_distributes_over_add(one, hits.skip(1), p);
    assert(one.drop_last() =~= Seq::<(Vec<u8>, X)>::empty());
    assert(one.drop_last().filter(p) =~= Seq::<(Vec<u8>, X)>::empty());
    if p(hits[0]) {
        assert(one.filter(p) =~= one);
    } else {
        assert(one.filter(p) =~= Seq::<(Vec<u8>, X)>::empty());
    }
    assert(hits.filter(p).map_values(v) =~= one.filter(p).map_values(v) + hits.skip(1).filter(
        p,
    ).map_values(v));
    if p(hits[0]) {
        assert(one.map_values(v) =~= seq![(hits[0].0@, row_of(f, hits[0].0)->Ok_0->0, hits[0].1)]);
    } else {
        assert(one.filter(p).map_values(v) + hits.skip(1).filter(p).map_values(v)
            =~= hits.skip(1).filter(p).map_values(v));
    }
}

proof fn lemma_resolved<D, X, F: Fn(&Vec<u8>) -> Result<Option<D>, EngineError>>(
    f: F,
    hits: Seq<(Vec<u8>, X)>,
    k: Option<usize>,
    got: Seq<(Seq<u8>, D, X)>,
)
    requires
        k matches Some(n) ==> got.len() < n,
    ensures
        resolved_hits(f, hits, k, got) matches Ok(rows) ==> {
            let all = hits_with_rows(f, hits);
            rows == got + (match k {
                Some(n) => if all.len() <= n - got.len() {
                    all
                } else {
                    all.take(n - got.len())
                },
                None => all,
            })
        },
    decreases hits.len(),
{
    reveal(Seq::filter);
    if hits.len() == 0 {
        assert(hits_with_rows::<D, X, F>(f, hits) =~= Seq::<(Seq<u8>, D, X)>::empty());
        assert(got + Seq::<(Seq<u8>, D, X)>::empty() =~= got);
    } else {
        lemma_hits_first::<D, X, F>(f, hits);
        let rest = hits.skip(1);
        let all = hits_with_rows::<D, X, F>(f, hits);
        let later = hits_with_rows::<D, X, F>(f, rest);
        match row_of(f, hits[0].0) {
            Err(_) => {},
            Ok(None) => {
                lemma_resolved(f, rest, k, got);
            },
            Ok(Some(d)) => {
                let own = (hits[0].0@, d, hits[0].1);
                let more = got.push(own);
                assert(all == seq![own] + later);
                if k matches Some(n) && more.len() >= n {
                    let n = k->0;
                    if all.len() <= n - got.len() {
                        assert(later.len() == 0);
                        assert(more =~= got + all);
                    } else {
                        assert(more =~= got + all.take(1));
                    }
                } else {
                    lemma_resolved(f, rest, k, more);
                    if resolved_hits(f, hits, k, got) is Ok {
                        let rows = resolved_hits(f, hits, k, got)->Ok_0;
                        match k {
                            None => {
                                assert(rows =~= got + all);
                            },
                            Some(n) => {
                                if all.len() <= n - got.len() {
                                    assert(rows =~= got + all);
                                } else {
                                    assert(rows =~= got + all.take(n - got.len()));
                                }
                            },
                        }
                    }
                }
            },
        }
    }
}

/// The rows of a search are those of its hits in the order of the hits, without
/// the hits that have none: all of them, or as many as were asked for.
pub proof fn hits_come_with_their_rows<D, X, F: Fn(&Vec<u8>) -> Result<Option<D>, EngineError>>(
    f: F,
    hits: Seq<(Vec<u8>, X)>,
    k: Option<usize>,
)
    requires
        k matches Some(n) ==> n > 0,
    ensures
        resolved_hits(f, hits, k, Seq::<(Seq<u8>, D, X)>::empty()) matches Ok(rows) ==> {
            let all = hits_with_rows(f, hits);
            rows == (match k {
                Some(n) => if all.len() <= n {
                    all
                } else {
                    all.take(n as int)
                },
                None => all,
            })
        },
{
    let none = Seq::<(Seq<u8>, D, X)>::empty();
    lemma_resolved(f, hits, k, none);
    let all = hits_with_rows::<D, X, F>(f, hits);
    assert(none + all =~= all);
    if let Some(n) = k {
        if all.len() > n {
            assert(none + all.take(n as int) =~= all.take(n as int));
        }
    }
}

/// Whether a key occurs at `p` and nowhere before.
pub open spec fn first_at(keys: Seq<Vec<u8>>, p: int) -> bool {
    0 <= p < keys.len() && forall|i: int| 0 <= i < p ==> (#[trigger] keys[i])@ != keys[p]@
}

/// The different keys of a list are each of them once, in the order of first
/// sight.
pub proof fn different_keys_come_once(keys: Seq<Vec<u8>>) -> (ps: Seq<int>)
    ensures
        crate::select_laws::go_up(ps, keys.len() as int),
        first_seen(keys).len() == ps.len(),
        forall|i: int|
            0 <= i < ps.len() ==> first_at(keys, #[trigger] ps[i]) && first_seen(keys)[i]
                == keys[ps[i]]@,
        forall|p: int| #[trigger] first_at(keys, p) ==> ps.contains(p),
    decreases keys.len(),
{
    if keys.len() == 0 {
        Seq::empty()
    } else {
        let init = keys.drop_last();
        let n = keys.len() - 1;
        let before = different_keys_come_once(init);
        let seen = first_seen(init);
        assert forall|p: int| 0 <= p < n implies first_at(init, p) == #[trigger] first_at(keys, p) by {
            assert(forall|i: int| 0 <= i < n ==> #[trigger] keys[i] == init[i]);
            if first_at(init, p) {
                assert forall|i: int| 0 <= i < p implies (#[trigger] keys[i])@ != keys[p]@ by {
                    assert(init[i]@ != init[p]@);
                }
            }
            if first_at(keys, p) {
                assert forall|i: int| 0 <= i < p implies (#[trigger] init[i])@ != init[p]@ by {
                    assert(keys[i]@ != keys[p]@);
                }
            }
        }
        assert(seen.contains(keys.last()@) <==> !first_at(keys, n)) by {
            if seen.contains(keys.last()@) {
                let i = choose|i: int| 0 <= i < seen.len() && seen[i] == keys.last()@;
                assert(first_at(init, before[i]));
                assert(seen[i] == init[before[i]]@);
                assert(keys[before[i]]@ == keys[n]@);
            }
            if !first_at(keys, n) {
                let i = choose|i: int| 0 <= i < n && (#[trigger] keys[i])@ == keys[n]@;
                let q = lemma_first_at(init, i);
                assert(before.contains(q));
                let z = choose|z: int| 0 <= z < before.len() && before[z] == q;
                assert(seen[z] == init[before[z]]@);
                assert(seen[z] == keys.last()@);
            }
        }
        let ps = if seen.contains(keys.last()@) {
            before
        } else {
            before.push(n)
        };
        assert forall|i: int| 0 <= i < ps.len() implies first_at(keys, #[trigger] ps[i]) && first_seen(
            keys,
        )[i] == keys[ps[i]]@ by {
            if i < before.len() {
                assert(first_at(init, before[i]) && seen[i] == init[before[i]]@);
                assert(first_at(keys, before[i]));
            } else {
                assert(first_at(keys, n));
            }
        }
        assert forall|p: int| #[trigger] first_at(keys, p) implies ps.contains(p) by {
            if p < n {
                assert(first_at(init, p));
                assert(before.contains(p));
                let z = choose|z: int| 0 <= z < before.len() && before[z] == p;
                assert(ps[z] == p);
            } else {
                assert(ps[before.len() as int] == n);
            }
        }
        ps
    }
}

proof fn lemma_first_at(keys: Seq<Vec<u8>>, p: int) -> (q: int)
    requires
        0 <= p < keys.len(),
    ensures
        first_at(keys, q),
        keys[q]@ == keys[p]@,
    decreases p,
{
    if first_at(keys, p) {
        p
    } else {
        let i = choose|i: int| 0 <= i < p && (#[trigger] keys[i])@ == keys[p]@;
        lemma_first_at(keys, i)
    }
}

/// The columns that a suggestion can be made from are those of the index that
/// hold text or keywords, in order.
pub proof fn texty_columns_hold_text(fields: Seq<(String, FieldKind)>)
    ensures
        texty_columns(fields) == fields.filter(
            |f: (String, FieldKind)| f.1 == FieldKind::Text || f.1 == FieldKind::Keyword,
        ).map_values(|f: (String, FieldKind)| f.0@),
    decreases fields.len(),
{
    reveal(Seq::filter);
    let p = |f: (String, FieldKind)| f.1 == FieldKind::Text || f.1 == FieldKind::Keyword;
    let v = |f: (String, FieldKind)| f.0@;
    if fields.len() > 0 {
        texty_columns_hold_text(fields.drop_last());
        assert(texty_columns(fields) =~= fields.filter(p).map_values(v));
    } else {
        assert(fields.filter(p).map_values(v) =~= Seq::<Seq<char>>::empty());
    }
}

/// A suggestion is made from the column that was named, and without a name from
/// the only one that holds text; where there are more or none it is refused.
pub proof fn suggestions_come_from_one_column(
    column: Option<Seq<char>>,
    fields: Seq<(String, FieldKind)>,
)
    ensures
        column matches Some(c) ==> suggested_column(column, fields) == Ok::<Seq<char>, ErrorView>(c),
        column is None ==> (suggested_column(column, fields) is Ok <==> fields.filter(
            |f: (String, FieldKind)| f.1 == FieldKind::Text || f.1 == FieldKind::Keyword,
        ).len() == 1),
        column is None && suggested_column(column, fields) is Ok ==> fields.filter(
            |f: (String, FieldKind)| f.1 == FieldKind::Text || f.1 == FieldKind::Keyword,
        )[0].0@ == suggested_column(column, fields)->Ok_0,
{
    texty_columns_hold_text(fields);
}

/// The names outside a set are just those that are not in it, in order.
pub proof fn names_outside_are_not_inside(names: Seq<String>, set: Set<Seq<char>>)
    ensures
        outside_of(names, set) == names.filter(|n: String| !set.contains(n@)).map_values(
            |n: String| n@,
        ),
    decreases names.len(),
{
    reveal(Seq::filter);
    let p = |n: String| !set.contains(n@);
    let v = |n: String| n@;
    if names.len() > 0 {
        names_outside_are_not_inside(names.drop_last(), set);
        assert(outside_of(names, set) =~= names.filter(p).map_values(v));
    } else {
        assert(names.filter(p).map_values(v) =~= Seq::<Seq<char>>::empty());
    }
}

/// Whether a vector hit is a candidate: its row can be read and the filter is
/// true of it.
pub open spec fn is_candidate<
    D,
    F: Fn(&Vec<u8>) -> Option<D>,
    P: Fn(&Expr, &D) -> Result<bool, EngineError>,
>(read: F, filter: Option<Expr>, decide: P, h: (Vec<u8>, i64)) -> bool {
    doc_of(read, h.0) is Some && (filter matches Some(e) ==> filter_says(
        decide,
        e,
        doc_of(read, h.0)->0,
    ) == Ok::<bool, EngineError>(true))
}

/// The candidates of a vector search are the hits whose rows can be read and
/// that the filter is true of, each with its row, in order.
pub proof fn candidates_pass_the_filter<
    D,
    F: Fn(&Vec<u8>) -> Option<D>,
    P: Fn(&Expr, &D) -> Result<bool, EngineError>,
>(read: F, filter: Option<Expr>, decide: P, hits: Seq<(Vec<u8>, i64)>)
    ensures
        candidates(read, filter, decide, hits) == hits.filter(
            |h: (Vec<u8>, i64)| is_candidate(read, filter, decide, h),
        ).map_values(|h: (Vec<u8>, i64)| (h.0, doc_of(read, h.0)->0, h.1)),
    decreases hits.len(),
{
    reveal(Seq::filter);
    let p = |h: (Vec<u8>, i64)| is_candidate(read, filter, decide, h);
    let v = |h: (Vec<u8>, i64)| (h.0, doc_of(read, h.0)->0, h.1);
    if hits.len() > 0 {
        candidates_pass_the_filter(read, filter, decide, hits.drop_last());
        let h = hits.last();
        assert(p(h) == (candidate(read, filter, decide, h.0) is Some));
        assert(candidates(read, filter, decide, hits) =~= hits.filter(p).map_values(v));
    } else {
        assert(hits.filter(p).map_values(v) =~= Seq::<(Vec<u8>, D, i64)>::empty());
    }
}

/// Whether a row is a candidate with the exact distance, where that can be told.
pub open spec fn is_rescored<D, R: Fn(&D) -> Option<i64>>(
    exact: R,
    x: (Vec<u8>, D, i64),
    y: (Vec<u8>, D, i64),
) -> bool {
    &&& y.0 == x.0
    &&& y.1 == x.1
    &&& y.2 == (match exact_of(exact, x.1) {
        Some(n) => n,
        None => x.2,
    })
}

proof fn lemma_closer<D>()
    ensures
        is_strict_order(|a: (Vec<u8>, D, i64), b: (Vec<u8>, D, i64)| closer(a, b)),
{
    let lt = |a: (Vec<u8>, D, i64), b: (Vec<u8>, D, i64)| closer(a, b);
    assert forall|a: (Vec<u8>, D, i64)| !(#[trigger] lt(a, a)) by {
        lemma_bytes_lt_irrefl(a.0@);
    }
    assert forall|a: (Vec<u8>, D, i64), b: (Vec<u8>, D, i64)| #[trigger] lt(a, b) implies !lt(
        b,
        a,
    ) by {
        if bytes_lt(a.0@, b.0@) && bytes_lt(b.0@, a.0@) {
            lemma_bytes_lt_trans(a.0@, b.0@, a.0@);
            lemma_bytes_lt_irrefl(a.0@);
        }
    }
    assert forall|a: (Vec<u8>, D, i64), b: (Vec<u8>, D, i64), c: (Vec<u8>, D, i64)|
        !(#[trigger] lt(b, a)) && !(#[trigger] lt(c, b)) implies !lt(c, a) by {
        lemma_bytes_lt_total(a.0@, b.0@);
        lemma_bytes_lt_total(b.0@, c.0@);
        if bytes_lt(c.0@, a.0@) && bytes_lt(a.0@, b.0@) {
            lemma_bytes_lt_trans(c.0@, a.0@, b.0@);
        }
    }
}

/// The nearest rows are the candidates with their exact distances, the nearer
/// first and by key where they tie: all of them, or as many as were asked for,
/// and none of those left out is nearer than one that is taken.
pub proof fn the_nearest_come_first<D, R: Fn(&D) -> Option<i64>>(
    exact: R,
    rows: Seq<(Vec<u8>, D, i64)>,
    k: usize,
) -> (r: (Seq<(Vec<u8>, D, i64)>, Seq<(Vec<u8>, D, i64)>))
    ensures
        ({
            let scored = r.0;
            let sorted = r.1;
            let out = closest(exact, rows, k);
            &&& scored.len() == rows.len()
            &&& forall|i: int| 0 <= i < rows.len() ==> is_rescored(exact, rows[i], #[trigger] scored[i])
            &&& sorted.to_multiset() == scored.to_multiset()
            &&& sorted.len() == rows.len()
            &&& forall|i: int, j: int|
                0 <= i < j < sorted.len() ==> (#[trigger] sorted[i]).2 < (#[trigger] sorted[j]).2 || (
                sorted[i].2 == sorted[j].2 && !bytes_lt(sorted[j].0@, sorted[i].0@))
            &&& out.len() == (if rows.len() <= k {
                rows.len()
            } else {
                k as nat
            })
            &&& forall|i: int| 0 <= i < out.len() ==> #[trigger] out[i] == sorted[i]
        }),
{
    let lt = |a: (Vec<u8>, D, i64), b: (Vec<u8>, D, i64)| closer(a, b);
    let scored = rows.map_values(|x: (Vec<u8>, D, i64)| rescored(exact, x));
    lemma_closer::<D>();
    stable_sort_is_a_sort(scored, lt);
    let sorted = stable_sorted(scored, lt);
    assert forall|i: int, j: int| 0 <= i < j < sorted.len() implies (#[trigger] sorted[i]).2 < (
    #[trigger] sorted[j]).2 || (sorted[i].2 == sorted[j].2 && !bytes_lt(
        sorted[j].0@,
        sorted[i].0@,
    )) by {
        assert(!lt(sorted[j], sorted[i]));
    }
    (scored, sorted)
}

/// Ranked hits stand by their ranks, and by key where those tie, every hit
/// once.
pub proof fn ranked_hits_stand_by_rank(ranks: Seq<i64>, keys: Seq<Vec<u8>>, n: nat) -> (ps: Seq<
    int,
>)
    ensures
        ps == stable_sorted(places(n), |a: int, b: int| hit_before(ranks, keys, a, b)),
        ps.len() == n,
        are_places(ps, n),
        forall|i: int, j: int|
            0 <= i < j < ps.len() ==> ranks[#[trigger] ps[i]] < ranks[#[trigger] ps[j]] || (
            ranks[ps[i]] == ranks[ps[j]] && !bytes_lt(keys[ps[j]]@, keys[ps[i]]@)),
{
    let lt = |a: int, b: int| hit_before(ranks, keys, a, b);
    assert forall|a: int, b: int|
        0 <= a < n && 0 <= b < n && #[trigger] lt(a, b) implies !lt(b, a) by {
        if bytes_lt(keys[a]@, keys[b]@) && bytes_lt(keys[b]@, keys[a]@) {
            lemma_bytes_lt_trans(keys[a]@, keys[b]@, keys[a]@);
            lemma_bytes_lt_irrefl(keys[a]@);
        }
    }
    assert forall|a: int, b: int, c: int|
        0 <= a < n && 0 <= b < n && 0 <= c < n && !(#[trigger] lt(b, a)) && !(#[trigger] lt(
            c,
            b,
        )) implies !lt(c, a) by {
        lemma_bytes_lt_total(keys[a]@, keys[b]@);
        lemma_bytes_lt_total(keys[b]@, keys[c]@);
        if bytes_lt(keys[c]@, keys[a]@) && bytes_lt(keys[a]@, keys[b]@) {
            lemma_bytes_lt_trans(keys[c]@, keys[a]@, keys[b]@);
        }
    }
    lemma_places_sorted(lt, n, n);
    let ps = stable_sorted(places(n), lt);
    assert forall|i: int, j: int| 0 <= i < j < ps.len() implies ranks[#[trigger] ps[i]]
        < ranks[#[trigger] ps[j]] || (ranks[ps[i]] == ranks[ps[j]] && !bytes_lt(
        keys[ps[j]]@,
        keys[ps[i]]@,
    )) by {
        assert(!lt(ps[j], ps[i]));
    }
    ps
}

} // verus!
