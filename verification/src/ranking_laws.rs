//! What ranked rows are: pages in the order of a sort value and the key, hits
//! reranked by their scores, and hits of two searches fused.

use vstd::prelude::*;

use crate::bytes::bytes_lt;
use crate::bytes::lemma_bytes_lt_irrefl;
use crate::bytes::lemma_bytes_lt_total;
use crate::bytes::lemma_bytes_lt_trans;
use crate::gather::leading;
use crate::gather::top_rows;
use crate::gather::with_leading;
use crate::hits::fused_place;
use crate::hits::with_hit;
use crate::hits::with_leg;
use crate::hits::FusedView;
use crate::model::doc_view;
use crate::model::value_view;
use crate::model::Fields;
use crate::order::in_order;
use crate::order::is_strict_order;
use crate::order::places;
use crate::order::rank_of;
use crate::order::stable_sort_is_a_sort;
use crate::order::stable_sorted;
use crate::order::top_before;
use crate::order::top_k_is_a_sorted_prefix;
use crate::order::Rank;
use crate::order::TopRow;
use crate::paging::in_page_order;
use crate::paging::page_behind;
use crate::paging::page_order;
use crate::paging::row_behind;
use crate::search_exec::by_column;
use crate::search_exec::by_score;
use crate::search_exec::column_page;
use crate::search_exec::reranked_fields;
use crate::search_exec::score_page;
use crate::search_exec::strings_at;
use crate::search_exec::unscored;
use crate::search_exec::value_at;
use crate::search_exec::Ask;
use crate::search_exec::Hit;
use crate::search_exec::SearchCluster;
use crate::search_plan::own_strings;
use crate::search_plan::scored_better;
use crate::search_plan::AFTER_FETCH_MAX;
use crate::sort_laws::are_places;
use crate::sort_laws::key_rank_is_precedence;
use crate::sort_laws::lemma_key_rank_chain;
use crate::sort_laws::lemma_places_sorted;
use crate::sort_laws::orders_values;
use crate::sort_laws::value_precedes;
use crate::sort_laws::values_tie;
use crate::value::Document;
use crate::value::Value;
use crate::vector_exec::fused_before;
use crate::vector_exec::fused_fields;
use crate::vector_exec::fused_fields_of;
use crate::vector_exec::fused_legs;
use crate::vector_exec::fused_score;
use crate::vector_exec::hit_keys;
use crate::vector_exec::hit_place;

verus! {

/// Whether one ranked row comes before another: by the sort value, and of rows
/// that tie the one with the smaller key.
pub open spec fn comes_before<F: Fn(&Value, &Value) -> Rank>(
    f: F,
    descending: bool,
    a: TopRow<Document>,
    b: TopRow<Document>,
) -> bool {
    value_precedes(f, a.0, b.0, descending) || (values_tie(f, a.0, b.0, descending) && bytes_lt(
        a.1@,
        b.1@,
    ))
}

proof fn lemma_page_order<F: Fn(&Value, &Value) -> Rank>(f: F, descending: bool)
    requires
        orders_values(f),
    ensures
        is_strict_order(page_order(f, descending)),
        forall|a: TopRow<Document>, b: TopRow<Document>| #[trigger]
            page_order(f, descending)(a, b) == comes_before(f, descending, a, b),
{
    let lt = page_order(f, descending);
    assert forall|a: TopRow<Document>, b: TopRow<Document>| #[trigger] lt(a, b) == comes_before(
        f,
        descending,
        a,
        b,
    ) by {
        key_rank_is_precedence(f, a.0, b.0, descending);
    }
    assert forall|a: TopRow<Document>| !(#[trigger] lt(a, a)) by {
        assert(rank_of(f, a.0, a.0) == Rank::Less <==> rank_of(f, a.0, a.0) == Rank::Greater);
        lemma_bytes_lt_irrefl(a.1@);
    }
    assert forall|a: TopRow<Document>, b: TopRow<Document>| #[trigger] lt(a, b) implies !lt(b, a) by {
        key_rank_is_precedence(f, a.0, b.0, descending);
        key_rank_is_precedence(f, b.0, a.0, descending);
        assert(rank_of(f, a.0, b.0) == Rank::Less <==> rank_of(f, b.0, a.0) == Rank::Greater);
        assert(rank_of(f, b.0, a.0) == Rank::Less <==> rank_of(f, a.0, b.0) == Rank::Greater);
        if bytes_lt(a.1@, b.1@) && bytes_lt(b.1@, a.1@) {
            lemma_bytes_lt_trans(a.1@, b.1@, a.1@);
            lemma_bytes_lt_irrefl(a.1@);
        }
    }
    assert forall|a: TopRow<Document>, b: TopRow<Document>, c: TopRow<Document>|
        !(#[trigger] lt(b, a)) && !(#[trigger] lt(c, b)) implies !lt(c, a) by {
        key_rank_is_precedence(f, a.0, b.0, descending);
        key_rank_is_precedence(f, b.0, a.0, descending);
        key_rank_is_precedence(f, b.0, c.0, descending);
        key_rank_is_precedence(f, c.0, b.0, descending);
        key_rank_is_precedence(f, a.0, c.0, descending);
        key_rank_is_precedence(f, c.0, a.0, descending);
        lemma_key_rank_chain(f, a.0, b.0, c.0, descending);
        lemma_bytes_lt_total(a.1@, b.1@);
        lemma_bytes_lt_total(b.1@, c.1@);
        if bytes_lt(c.1@, a.1@) {
            if bytes_lt(a.1@, b.1@) {
                lemma_bytes_lt_trans(c.1@, a.1@, b.1@);
            }
        }
    }
}

/// Whether ranked rows stand in order.
pub open spec fn rows_stand<F: Fn(&Value, &Value) -> Rank>(
    f: F,
    descending: bool,
    rows: Seq<TopRow<Document>>,
) -> bool {
    forall|i: int, j: int|
        0 <= i < j < rows.len() ==> !comes_before(
            f,
            descending,
            #[trigger] rows[j],
            #[trigger] rows[i],
        )
}

/// Putting rows in page order moves them about and no more, and then they stand
/// by their sort values, and by their keys where those tie.
pub proof fn page_order_is_by_value_and_key<F: Fn(&Value, &Value) -> Rank>(
    f: F,
    descending: bool,
    rows: Seq<TopRow<Document>>,
)
    requires
        orders_values(f),
    ensures
        rows_stand(f, descending, in_page_order(f, descending, rows)),
        in_page_order(f, descending, rows).to_multiset() == rows.to_multiset(),
        in_page_order(f, descending, rows).len() == rows.len(),
{
    let lt = page_order(f, descending);
    lemma_page_order(f, descending);
    stable_sort_is_a_sort(rows, lt);
    let r = in_page_order(f, descending, rows);
    assert forall|i: int, j: int| 0 <= i < j < r.len() implies !comes_before(
        f,
        descending,
        #[trigger] r[j],
        #[trigger] r[i],
    ) by {
        assert(!lt(r[j], r[i]));
    }
}

/// Whether a row lies behind a cursor: its sort value stands behind the
/// cursor's, or they tie and its key is the greater.
pub open spec fn lies_behind<H: Fn(&Value, &Value) -> Rank>(
    h: H,
    descending: bool,
    cursor: Value,
    cursor_key: Seq<u8>,
    row: TopRow<Document>,
) -> bool {
    value_precedes(h, cursor, row.0, descending) || (values_tie(h, cursor, row.0, descending)
        && bytes_lt(cursor_key, row.1@))
}

proof fn lemma_filter_in_order<T>(s: Seq<T>, lt: spec_fn(T, T) -> bool, p: spec_fn(T) -> bool)
    requires
        in_order(s, lt),
    ensures
        in_order(s.filter(p), lt),
        forall|i: int|
            0 <= i < s.filter(p).len() ==> p(#[trigger] s.filter(p)[i]) && s.contains(
                s.filter(p)[i],
            ),
        forall|i: int| 0 <= i < s.len() && p(#[trigger] s[i]) ==> s.filter(p).contains(s[i]),
    decreases s.len(),
{
    reveal(Seq::filter);
    if s.len() > 0 {
        let init = s.drop_last();
        let n = s.len() - 1;
        assert(in_order(init, lt)) by {
            assert forall|i: int, j: int| 0 <= i < j < init.len() implies !lt(
                #[trigger] init[j],
                #[trigger] init[i],
            ) by {
                assert(!lt(s[j], s[i]));
            }
        }
        lemma_filter_in_order(init, lt, p);
        let before = init.filter(p);
        let r = s.filter(p);
        assert forall|i: int| 0 <= i < r.len() implies p(#[trigger] r[i]) && s.contains(r[i]) by {
            if i < before.len() {
                assert(init.contains(before[i]));
                let q = choose|q: int| 0 <= q < init.len() && init[q] == before[i];
                assert(s[q] == r[i]);
            } else {
                assert(s[n] == r[i]);
            }
        }
        assert forall|i: int, j: int| 0 <= i < j < r.len() implies !lt(
            #[trigger] r[j],
            #[trigger] r[i],
        ) by {
            if j < before.len() {
                assert(!lt(before[j], before[i]));
            } else {
                assert(init.contains(before[i]));
                let q = choose|q: int| 0 <= q < init.len() && init[q] == before[i];
                assert(s[q] == r[i]);
                assert(!lt(s[n], s[q]));
            }
        }
        assert forall|i: int| 0 <= i < s.len() && p(#[trigger] s[i]) implies r.contains(s[i]) by {
            if i < n {
                assert(before.contains(init[i]));
                let q = choose|q: int| 0 <= q < before.len() && before[q] == init[i];
                assert(r[q] == s[i]);
            } else {
                assert(r[r.len() - 1] == s[i]);
            }
        }
    }
}

/// A page behind a cursor holds rows that lie behind it, in order, no more than
/// the limit; and of the rows that lie behind it those come first: one that the
/// page leaves out comes before none that it holds, and it leaves none out
/// while it has room.
pub proof fn pages_hold_the_next_rows<
    F: Fn(&Value, &Value) -> Rank,
    H: Fn(&Value, &Value) -> Rank,
>(
    f: F,
    h: H,
    descending: bool,
    cursor: Value,
    cursor_key: Seq<u8>,
    limit: nat,
    rows: Seq<TopRow<Document>>,
    row: TopRow<Document>,
)
    requires
        orders_values(f),
        orders_values(h),
    ensures
        ({
            let page = page_behind(f, h, descending, cursor, cursor_key, limit, rows);
            &&& page.len() <= limit
            &&& rows_stand(f, descending, page)
            &&& forall|i: int|
                0 <= i < page.len() ==> rows.contains(#[trigger] page[i]) && lies_behind(
                    h,
                    descending,
                    cursor,
                    cursor_key,
                    page[i],
                )
            &&& rows.contains(row) && lies_behind(h, descending, cursor, cursor_key, row)
                && !page.contains(row) ==> {
                &&& page.len() == limit
                &&& forall|i: int|
                    0 <= i < page.len() ==> !comes_before(f, descending, row, #[trigger] page[i])
            }
        }),
{
    let lt = page_order(f, descending);
    let p = |r: TopRow<Document>| row_behind(h, descending, cursor, cursor_key, r);
    let sorted = in_page_order(f, descending, rows);
    let found = sorted.filter(p);
    let page = page_behind(f, h, descending, cursor, cursor_key, limit, rows);
    page_order_is_by_value_and_key(f, descending, rows);
    lemma_page_order(f, descending);
    stable_sort_is_a_sort(rows, lt);
    lemma_filter_in_order(sorted, lt, p);
    assert forall|r: TopRow<Document>| #[trigger] p(r) == lies_behind(
        h,
        descending,
        cursor,
        cursor_key,
        r,
    ) by {
        key_rank_is_precedence(h, r.0, cursor, descending);
        key_rank_is_precedence(h, cursor, r.0, descending);
    }
    broadcast use vstd::seq_lib::group_to_multiset_ensures;

    assert forall|i: int| 0 <= i < page.len() implies rows.contains(#[trigger] page[i])
        && lies_behind(h, descending, cursor, cursor_key, page[i]) by {
        assert(page[i] == found[i]);
        assert(p(found[i]));
        assert(sorted.contains(found[i]));
        assert(sorted.to_multiset().count(found[i]) > 0);
        assert(rows.to_multiset().count(found[i]) > 0);
    }
    assert forall|i: int, j: int| 0 <= i < j < page.len() implies !comes_before(
        f,
        descending,
        #[trigger] page[j],
        #[trigger] page[i],
    ) by {
        assert(!lt(found[j], found[i]));
    }
    if rows.contains(row) && p(row) && !page.contains(row) {
        assert(rows.to_multiset().count(row) > 0);
        assert(sorted.to_multiset().count(row) > 0);
        assert(sorted.contains(row));
        let s = choose|s: int| 0 <= s < sorted.len() && sorted[s] == row;
        assert(p(sorted[s]));
        assert(found.contains(row));
        let q = choose|q: int| 0 <= q < found.len() && found[q] == row;
        if q < page.len() {
            assert(page[q] == row);
        }
        assert forall|i: int| 0 <= i < page.len() implies !comes_before(
            f,
            descending,
            row,
            #[trigger] page[i],
        ) by {
            assert(!lt(found[q], found[i]));
        }
    }
}

/// A keyset page by score is the page behind the cursor among the best hits
/// down to some depth; it is full, or the search had no more hits.
pub proof fn score_pages_are_deep_enough<
    C: SearchCluster,
    O: Fn(&Value, &Value) -> Rank,
    X: Fn(&Value, &Value) -> Rank,
>(
    c: C,
    o: O,
    x: X,
    table: Seq<char>,
    ask: Ask,
    cursor: Value,
    cursor_key: Seq<u8>,
    limit: u64,
    k: u64,
) -> (d: u64)
    ensures
        score_page(c, o, x, table, ask, cursor, cursor_key, limit, k) matches Ok(p) ==> {
            &&& k <= d
            &&& c.hits_of(table, Ask { k: Some(d), ..ask }) is Ok
            &&& p == page_behind(
                o,
                x,
                true,
                cursor,
                cursor_key,
                limit as nat,
                by_score(c.hits_of(table, Ask { k: Some(d), ..ask })->Ok_0),
            )
            &&& p.len() == limit || c.hits_of(table, Ask { k: Some(d), ..ask })->Ok_0.len() < d
        },
    decreases AFTER_FETCH_MAX - k,
{
    match c.hits_of(table, Ask { k: Some(k), ..ask }) {
        Err(_) => k,
        Ok(hits) => {
            match crate::paging::settled(o, x, true, cursor, cursor_key, limit, k, by_score(hits)) {
                crate::paging::SettledView::Deeper(n) => {
                    if k < n <= AFTER_FETCH_MAX {
                        score_pages_are_deep_enough(
                            c,
                            o,
                            x,
                            table,
                            ask,
                            cursor,
                            cursor_key,
                            limit,
                            n,
                        )
                    } else {
                        k
                    }
                },
                _ => k,
            }
        },
    }
}

/// A keyset page by a column is the page behind the cursor among the first
/// matches in the order of the column down to some depth, full or with no more
/// to be had; and where the index cannot serve that order, among all hits.
pub proof fn column_pages_are_deep_enough<
    C: SearchCluster,
    G: Fn(&Value, &Value) -> Rank,
    L: Fn(&Document, &String) -> Value,
>(
    c: C,
    g: G,
    l: L,
    table: Seq<char>,
    col: Seq<char>,
    descending: bool,
    ask: Ask,
    cursor: Value,
    cursor_key: Seq<u8>,
    limit: u64,
    k: u64,
) -> (d: u64)
    ensures
        column_page(c, g, l, table, col, descending, ask, cursor, cursor_key, limit, k) matches Ok(
            p,
        ) ==> {
            &&& k <= d
            &&& c.sorted_hits_of(table, col, descending, Ask { k: Some(d), ..ask }) is Ok
            &&& match c.sorted_hits_of(table, col, descending, Ask { k: Some(d), ..ask })->Ok_0 {
                Some(rows) => p == page_behind(
                    g,
                    g,
                    descending,
                    cursor,
                    cursor_key,
                    limit as nat,
                    by_column(l, col, rows),
                ) && (p.len() == limit || rows.len() < d),
                None => c.hits_of(table, Ask { k: None, ..ask }) is Ok && p == page_behind(
                    g,
                    g,
                    descending,
                    cursor,
                    cursor_key,
                    limit as nat,
                    by_column(l, col, unscored(c.hits_of(table, Ask { k: None, ..ask })->Ok_0)),
                ),
            }
        },
    decreases AFTER_FETCH_MAX - k,
{
    match c.sorted_hits_of(table, col, descending, Ask { k: Some(k), ..ask }) {
        Ok(Some(rows)) => {
            match crate::paging::settled(
                g,
                g,
                descending,
                cursor,
                cursor_key,
                limit,
                k,
                by_column(l, col, rows),
            ) {
                crate::paging::SettledView::Deeper(n) => {
                    if k < n <= AFTER_FETCH_MAX {
                        column_pages_are_deep_enough(
                            c,
                            g,
                            l,
                            table,
                            col,
                            descending,
                            ask,
                            cursor,
                            cursor_key,
                            limit,
                            n,
                        )
                    } else {
                        k
                    }
                },
                _ => k,
            }
        },
        _ => k,
    }
}

/// Whether a document is a row with one more field, of this value.
pub open spec fn adds_field(row: Fields, name: Seq<char>, v: crate::model::ValueView, m: Fields) -> bool {
    &&& m.dom().contains(name)
    &&& m[name] == v
    &&& forall|n: Seq<char>|
        n != name ==> (#[trigger] m.dom().contains(n) <==> row.dom().contains(n))
    &&& forall|n: Seq<char>| n != name && row.dom().contains(n) ==> #[trigger] m[n] == row[n]
}

/// Reranked hits are the hits, each once, with its score for the field `_score`;
/// the better score comes first, and hits that tie stay as they were.
pub proof fn reranked_hits_stand_by_score(docs: Seq<Document>, scores: Seq<(i64, Value)>) -> (ps:
    Seq<int>)
    requires
        scores.len() == docs.len(),
    ensures
        reranked_fields(docs, scores).len() == docs.len(),
        ps.len() == docs.len(),
        are_places(ps, docs.len()),
        forall|i: int|
            0 <= i < docs.len() ==> adds_field(
                doc_view(docs[ps[i]]),
                "_score"@,
                value_view(scores[ps[i]].1),
                #[trigger] reranked_fields(docs, scores)[i],
            ),
        forall|i: int, j: int|
            0 <= i < j < ps.len() ==> scores[#[trigger] ps[i]].0 > scores[#[trigger] ps[j]].0 || (
            scores[ps[i]].0 == scores[ps[j]].0 && ps[i] < ps[j]),
{
    let ranks = scores.map_values(|p: (i64, Value)| p.0);
    let lt = |a: int, b: int| scored_better(scores.map_values(|p: (i64, Value)| p.0), a, b);
    assert forall|a: int, b: int| 0 <= a < docs.len() && 0 <= b < docs.len() implies #[trigger] lt(
        a,
        b,
    ) == (scores[a].0 > scores[b].0) by {
        assert(ranks[a] == scores[a].0);
    }
    lemma_places_sorted(lt, docs.len(), docs.len());
    let ps = stable_sorted(places(docs.len()), lt);
    assert forall|i: int, j: int| 0 <= i < j < ps.len() implies scores[#[trigger] ps[i]].0
        > scores[#[trigger] ps[j]].0 || (scores[ps[i]].0 == scores[ps[j]].0 && ps[i] < ps[j]) by {
        assert(!lt(ps[j], ps[i]));
        assert(lt(ps[i], ps[j]) || ps[i] < ps[j]);
    }
    ps
}

/// The ranks of `n` hits, from one up.
pub open spec fn all_ranks(n: nat) -> Seq<nat> {
    Seq::new(n, |i: int| (i + 1) as nat)
}

/// Whether a leg of a search has a key at a rank.
pub open spec fn has_at_rank(leg: Seq<Vec<u8>>, key: Seq<u8>) -> spec_fn(nat) -> bool {
    |r: nat| leg[r - 1]@ == key
}

/// The ranks at which a leg of a search found a key.
pub open spec fn ranks_in(leg: Seq<Vec<u8>>, key: Seq<u8>) -> Seq<nat> {
    all_ranks(leg.len()).filter(has_at_rank(leg, key))
}

/// The ranks that a key has among fused hits.
pub open spec fn ranks_of(hs: Seq<FusedView>, key: Seq<u8>) -> Seq<nat> {
    let p = fused_place(hs, key);
    if p < hs.len() {
        hs[p].ranks
    } else {
        Seq::empty()
    }
}

/// Whether no key occurs twice among fused hits.
pub open spec fn fused_once(hs: Seq<FusedView>) -> bool {
    forall|i: int, j: int|
        0 <= i < j < hs.len() ==> (#[trigger] hs[i]).key != (#[trigger] hs[j]).key
}

proof fn lemma_fused_place(hs: Seq<FusedView>, key: Seq<u8>)
    ensures
        0 <= fused_place(hs, key) <= hs.len(),
        fused_place(hs, key) < hs.len() ==> hs[fused_place(hs, key)].key == key,
        forall|i: int| 0 <= i < fused_place(hs, key) ==> (#[trigger] hs[i]).key != key,
    decreases hs.len(),
{
    if hs.len() > 0 && hs[0].key != key {
        let rest = hs.skip(1);
        lemma_fused_place(rest, key);
        assert forall|i: int| 0 <= i < fused_place(hs, key) implies (#[trigger] hs[i]).key != key by {
            if i > 0 {
                assert(hs[i] == rest[i - 1]);
            }
        }
    }
}

proof fn lemma_ranks_in_push(leg: Seq<Vec<u8>>, key: Seq<u8>)
    requires
        leg.len() > 0,
    ensures
        ranks_in(leg, key) == (if leg.last()@ == key {
            ranks_in(leg.drop_last(), key).push(leg.len())
        } else {
            ranks_in(leg.drop_last(), key)
        }),
{
    reveal(Seq::filter);
    let init = leg.drop_last();
    let all = all_ranks(leg.len());
    let before = all_ranks(init.len());
    let p = has_at_rank(leg, key);
    let q = has_at_rank(init, key);
    assert(all.drop_last() =~= before);
    lemma_filter_agrees(before, p, q);
    assert(all.last() == leg.len());
    assert(p(all.last()) == (leg.last()@ == key));
}

proof fn lemma_filter_agrees<T>(s: Seq<T>, p: spec_fn(T) -> bool, q: spec_fn(T) -> bool)
    requires
        forall|i: int| 0 <= i < s.len() ==> p(#[trigger] s[i]) == q(s[i]),
    ensures
        s.filter(p) == s.filter(q),
    decreases s.len(),
{
    reveal(Seq::filter);
    if s.len() > 0 {
        let init = s.drop_last();
        assert forall|i: int| 0 <= i < init.len() implies p(#[trigger] init[i]) == q(init[i]) by {
            assert(p(s[i]) == q(s[i]));
        }
        lemma_filter_agrees(init, p, q);
        assert(p(s[s.len() - 1]) == q(s[s.len() - 1]));
    }
}

proof fn lemma_with_hit(hs: Seq<FusedView>, key: Seq<u8>, rank: nat, other: Seq<u8>)
    requires
        fused_once(hs),
    ensures
        fused_once(with_hit(hs, key, rank)),
        ranks_of(with_hit(hs, key, rank), other) == (if other == key {
            ranks_of(hs, other).push(rank)
        } else {
            ranks_of(hs, other)
        }),
{
    let r = with_hit(hs, key, rank);
    lemma_fused_place(hs, key);
    lemma_fused_place(hs, other);
    lemma_fused_place(r, other);
    let p = fused_place(hs, key);
    let a = fused_place(hs, other);
    let b = fused_place(r, other);
    assert(forall|i: int| 0 <= i < hs.len() ==> (#[trigger] r[i]).key == hs[i].key);
    if a < hs.len() {
        assert(r[a].key == other);
        if b < a {
            assert(hs[b].key == r[b].key);
        }
        assert(b == a);
    } else if other == key {
        assert(r[hs.len() as int].key == key);
        if b < hs.len() {
            assert(hs[b].key == r[b].key);
        }
        assert(b == hs.len());
        assert(ranks_of(r, other) =~= ranks_of(hs, other).push(rank));
    } else {
        if b < r.len() {
            if b < hs.len() {
                assert(hs[b].key == r[b].key);
            }
        }
    }
    assert forall|i: int, j: int| 0 <= i < j < r.len() implies (#[trigger] r[i]).key != (
    #[trigger] r[j]).key by {
        if j < hs.len() {
            assert(hs[i].key != hs[j].key);
        }
    }
}

proof fn lemma_with_leg(hs: Seq<FusedView>, leg: Seq<Vec<u8>>, key: Seq<u8>)
    requires
        fused_once(hs),
    ensures
        fused_once(with_leg(hs, leg)),
        ranks_of(with_leg(hs, leg), key) == ranks_of(hs, key) + ranks_in(leg, key),
    decreases leg.len(),
{
    reveal(Seq::filter);
    if leg.len() == 0 {
        assert(all_ranks(leg.len()) =~= Seq::<nat>::empty());
        assert(ranks_of(hs, key) + ranks_in(leg, key) =~= ranks_of(hs, key));
    } else {
        let init = leg.drop_last();
        lemma_with_leg(hs, init, key);
        lemma_ranks_in_push(leg, key);
        lemma_with_hit(with_leg(hs, init), leg.last()@, leg.len(), key);
        if leg.last()@ == key {
            assert((ranks_of(hs, key) + ranks_in(init, key)).push(leg.len()) =~= ranks_of(hs, key)
                + ranks_in(leg, key));
        }
    }
}

/// A key is fused once, with the ranks at which the text search and the vector
/// search found it, in that order.
pub proof fn fused_hits_have_both_ranks(text: Seq<Hit>, near: Seq<Hit>, i: int)
    requires
        0 <= i < fused_legs(text, near).len(),
    ensures
        fused_once(fused_legs(text, near)),
        fused_legs(text, near)[i].ranks == ranks_in(hit_keys(text), fused_legs(text, near)[i].key)
            + ranks_in(hit_keys(near), fused_legs(text, near)[i].key),
{
    let none = Seq::<FusedView>::empty();
    let hs = fused_legs(text, near);
    let key = hs[i].key;
    let one = with_leg(none, hit_keys(text));
    lemma_with_leg(none, hit_keys(text), key);
    lemma_with_leg(one, hit_keys(near), key);
    lemma_fused_place(hs, key);
    let p = fused_place(hs, key);
    assert(p == i) by {
        if p < i {
            assert(hs[p].key != hs[i].key);
        }
    }
    assert(ranks_of(none, key) + ranks_in(hit_keys(text), key) =~= ranks_in(hit_keys(text), key));
}

/// Whether fields are those of a hit with a key: the text search's where it
/// found the key, else the vector search's.
pub open spec fn are_fields_of_hit(
    text: Seq<Hit>,
    near: Seq<Hit>,
    key: Seq<u8>,
    m: Fields,
) -> bool {
    if exists|i: int| 0 <= i < text.len() && (#[trigger] text[i]).0@ == key {
        exists|i: int|
            0 <= i < text.len() && (#[trigger] text[i]).0@ == key && m == doc_view(text[i].1)
    } else {
        exists|i: int|
            0 <= i < near.len() && (#[trigger] near[i]).0@ == key && m == doc_view(near[i].1)
    }
}

proof fn lemma_hit_place(hits: Seq<Hit>, key: Seq<u8>)
    ensures
        0 <= hit_place(hits, key) <= hits.len(),
        hit_place(hits, key) < hits.len() ==> hits[hit_place(hits, key)].0@ == key,
        hit_place(hits, key) == hits.len() ==> forall|i: int|
            0 <= i < hits.len() ==> (#[trigger] hits[i]).0@ != key,
    decreases hits.len(),
{
    if hits.len() > 0 && hits[0].0@ != key {
        let rest = hits.skip(1);
        lemma_hit_place(rest, key);
        if hit_place(hits, key) == hits.len() {
            assert forall|i: int| 0 <= i < hits.len() implies (#[trigger] hits[i]).0@ != key by {
                if i > 0 {
                    assert(hits[i] == rest[i - 1]);
                }
            }
        }
    }
}

/// Fused rows are the keys that either search found, each once: the fields of
/// its hit with the fused score for `_rrf_score`. They stand by what the fusion
/// makes of their ranks, and by key where that ties.
pub proof fn fused_rows_stand_by_score<W: Fn(u32, &Vec<usize>) -> (i64, Value)>(
    w: W,
    constant: u32,
    text: Seq<Hit>,
    near: Seq<Hit>,
) -> (ps: Seq<int>)
    ensures
        ({
            let hs = fused_legs(text, near);
            let out = fused_fields(w, constant, text, near);
            &&& out.len() == hs.len()
            &&& ps.len() == hs.len()
            &&& are_places(ps, hs.len())
            &&& forall|i: int|
                0 <= i < hs.len() ==> adds_field(
                    fused_fields_of(text, near, hs[ps[i]].key),
                    "_rrf_score"@,
                    value_view(fused_score(w, constant, hs[ps[i]].ranks).1),
                    #[trigger] out[i],
                )
            &&& forall|i: int|
                0 <= i < hs.len() ==> are_fields_of_hit(
                    text,
                    near,
                    (#[trigger] hs[i]).key,
                    fused_fields_of(text, near, hs[i].key),
                )
            &&& forall|i: int, j: int|
                0 <= i < j < ps.len() ==> {
                    let x = fused_score(w, constant, hs[#[trigger] ps[i]].ranks).0;
                    let y = fused_score(w, constant, hs[#[trigger] ps[j]].ranks).0;
                    x < y || (x == y && bytes_lt(hs[ps[i]].key, hs[ps[j]].key))
                }
        }),
{
    let hs = fused_legs(text, near);
    let n = hs.len();
    let lt = |a: int, b: int| fused_before(w, constant, hs, a, b);
    let score = |a: int| fused_score(w, constant, hs[a].ranks).0;
    assert forall|a: int, b: int|
        0 <= a < n && 0 <= b < n && #[trigger] lt(a, b) implies !lt(b, a) by {
        if bytes_lt(hs[a].key, hs[b].key) && bytes_lt(hs[b].key, hs[a].key) {
            lemma_bytes_lt_trans(hs[a].key, hs[b].key, hs[a].key);
            lemma_bytes_lt_irrefl(hs[a].key);
        }
    }
    assert forall|a: int, b: int, c: int|
        0 <= a < n && 0 <= b < n && 0 <= c < n && !(#[trigger] lt(b, a)) && !(#[trigger] lt(
            c,
            b,
        )) implies !lt(c, a) by {
        lemma_bytes_lt_total(hs[a].key, hs[b].key);
        lemma_bytes_lt_total(hs[b].key, hs[c].key);
        if bytes_lt(hs[c].key, hs[a].key) && bytes_lt(hs[a].key, hs[b].key) {
            lemma_bytes_lt_trans(hs[c].key, hs[a].key, hs[b].key);
        }
    }
    lemma_places_sorted(lt, n, n);
    let ps = stable_sorted(places(n), lt);
    assert forall|i: int, j: int| 0 <= i < j < ps.len() implies ({
        let x = fused_score(w, constant, hs[#[trigger] ps[i]].ranks).0;
        let y = fused_score(w, constant, hs[#[trigger] ps[j]].ranks).0;
        x < y || (x == y && bytes_lt(hs[ps[i]].key, hs[ps[j]].key))
    }) by {
        assert(!lt(ps[j], ps[i]));
        fused_hits_have_both_ranks(text, near, ps[i]);
        lemma_bytes_lt_total(hs[ps[i]].key, hs[ps[j]].key);
        assert(ps[i] != ps[j]);
        if ps[i] < ps[j] {
            assert(hs[ps[i]].key != hs[ps[j]].key);
        } else {
            assert(hs[ps[j]].key != hs[ps[i]].key);
        }
    }
    assert forall|i: int| 0 <= i < hs.len() implies are_fields_of_hit(
        text,
        near,
        (#[trigger] hs[i]).key,
        fused_fields_of(text, near, hs[i].key),
    ) by {
        let key = hs[i].key;
        lemma_hit_place(text, key);
        lemma_hit_place(near, key);
        crate::hits::fusion_keeps_both_legs(hit_keys(text), hit_keys(near), key);
        assert(crate::hits::fused_has(hs, key));
        let p = hit_place(text, key);
        if p < text.len() {
            assert(text[p].0@ == key && fused_fields_of(text, near, key) == doc_view(text[p].1));
        } else {
            if crate::hits::found_by(hit_keys(text), key) {
                let q = choose|q: int| 0 <= q < hit_keys(text).len() && (#[trigger] hit_keys(text)[q])@ == key;
                assert(text[q].0@ == key);
            }
            assert(crate::hits::found_by(hit_keys(near), key));
            let q = choose|q: int| 0 <= q < hit_keys(near).len() && (#[trigger] hit_keys(near)[q])@ == key;
            assert(near[q].0@ == key);
            let r = hit_place(near, key);
            assert(near[r].0@ == key && fused_fields_of(text, near, key) == doc_view(near[r].1));
        }
    }
    ps
}

/// The rows with the sort value of each.
pub open spec fn led_by<L: Fn(&Document) -> Value>(
    l: L,
    rows: Seq<(Vec<u8>, Document)>,
) -> Seq<TopRow<Document>> {
    Seq::new(rows.len(), |i: int| (leading(l, rows[i].1), rows[i].0, rows[i].1))
}

/// The best rows of a walk are the first of all its rows in the order of their
/// sort values and keys, as many as are kept.
pub proof fn the_best_rows_are_kept<L: Fn(&Document) -> Value, F: Fn(&Value, &Value) -> Rank>(
    l: L,
    f: F,
    descending: bool,
    k: nat,
    rows: Seq<(Vec<u8>, Document)>,
) -> (sorted: Seq<TopRow<Document>>)
    requires
        orders_values(f),
    ensures
        sorted.to_multiset() == led_by(l, rows).to_multiset(),
        sorted.len() == rows.len(),
        rows_stand(f, descending, sorted),
        top_rows(l, f, descending, k, rows) == (if k < rows.len() {
            sorted.take(k as int)
        } else {
            sorted
        }),
{
    let lt = |a: TopRow<Document>, b: TopRow<Document>| top_before(f, descending, a, b);
    let all = with_leading(l, rows);
    lemma_page_order(f, descending);
    assert(lt =~= page_order(f, descending));
    assert(all =~= led_by(l, rows));
    page_order_is_by_value_and_key(f, descending, all);
    top_k_is_a_sorted_prefix(all, lt, k);
    in_page_order(f, descending, all)
}

/// The texts that a candidate is scored by are those of its columns that hold
/// text, in the order of the columns.
pub proof fn candidates_are_scored_by_their_texts<L: Fn(&Document, &String) -> Value>(
    l: L,
    doc: Document,
    cols: Seq<Seq<char>>,
)
    ensures
        strings_at(l, doc, cols) == cols.filter(
            |c: Seq<char>| value_at(l, doc, c) is String,
        ).map_values(|c: Seq<char>| value_at(l, doc, c)->String_0@),
    decreases cols.len(),
{
    reveal(Seq::filter);
    let p = |c: Seq<char>| value_at(l, doc, c) is String;
    let v = |c: Seq<char>| value_at(l, doc, c)->String_0@;
    if cols.len() > 0 {
        candidates_are_scored_by_their_texts(l, doc, cols.drop_last());
        assert(strings_at(l, doc, cols) =~= cols.filter(p).map_values(v));
    } else {
        assert(cols.filter(p).map_values(v) =~= Seq::<Seq<char>>::empty());
    }
}

/// The texts that speak for a whole document are those of its fields that hold
/// text and whose names do not begin with `_`, in the order of the fields.
pub proof fn own_texts_leave_out_hidden_fields(es: Seq<(String, Value)>)
    ensures
        own_strings(es) == es.filter(
            |f: (String, Value)| f.1 is String && !crate::text::has_prefix(f.0@, "_"@),
        ).map_values(|f: (String, Value)| f.1->String_0@),
    decreases es.len(),
{
    reveal(Seq::filter);
    let p = |f: (String, Value)| f.1 is String && !crate::text::has_prefix(f.0@, "_"@);
    let v = |f: (String, Value)| f.1->String_0@;
    if es.len() > 0 {
        own_texts_leave_out_hidden_fields(es.drop_last());
        assert(own_strings(es) =~= es.filter(p).map_values(v));
    } else {
        assert(es.filter(p).map_values(v) =~= Seq::<Seq<char>>::empty());
    }
}

} // verus!
