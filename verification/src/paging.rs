//! Search rows in page order, and the rows behind a keyset cursor.

use vstd::prelude::*;

use crate::bytes::lemma_bytes_lt_irrefl;
use crate::bytes::lemma_bytes_lt_total;
use crate::order::compare_key;
use crate::order::first_few;
use crate::order::is_ranking;
use crate::order::is_strict_order;
use crate::order::kept;
use crate::order::key_rank;
use crate::order::lemma_slot_for;
use crate::order::reversed;
use crate::order::slot_for;
use crate::order::stable_sort_is_a_sort;
use crate::order::stable_sorted;
use crate::order::top_before;
use crate::order::top_k_is_a_sorted_prefix;
use crate::order::Rank;
use crate::order::TopK;
use crate::order::TopRow;
use crate::search_plan::after_step;
use crate::search_plan::is_behind;
use crate::search_plan::next_depth;
use crate::search_plan::strictly_after;
use crate::search_plan::AfterStep;
use crate::search_plan::AFTER_FETCH_MAX;
use crate::value::Document;
use crate::value::Value;

verus! {

/// Whether one row comes before another on a page: by the sort value, then by
/// the key going up.
pub open spec fn page_order<F: Fn(&Value, &Value) -> Rank>(f: F, descending: bool) -> spec_fn(
    TopRow<Document>,
    TopRow<Document>,
) -> bool {
    |a: TopRow<Document>, b: TopRow<Document>| top_before(f, descending, a, b)
}

/// Rows in page order.
pub open spec fn in_page_order<F: Fn(&Value, &Value) -> Rank>(
    f: F,
    descending: bool,
    rows: Seq<TopRow<Document>>,
) -> Seq<TopRow<Document>> {
    stable_sorted(rows, page_order(f, descending))
}

proof fn lemma_sorted_len<T>(s: Seq<T>, lt: spec_fn(T, T) -> bool)
    ensures
        stable_sorted(s, lt).len() == s.len(),
    decreases s.len(),
{
    if s.len() > 0 {
        lemma_sorted_len(s.drop_last(), lt);
        lemma_slot_for(stable_sorted(s.drop_last(), lt), s.last(), lt);
    }
}

/// Puts rows in page order.
pub fn sort_page<F: Fn(&Value, &Value) -> Rank>(
    f: &F,
    descending: bool,
    rows: Vec<TopRow<Document>>,
) -> (r: Vec<TopRow<Document>>)
    requires
        is_ranking(*f),
    ensures
        r@ == in_page_order(*f, descending, rows@),
{
    let ghost all = rows@;
    let ghost lt = page_order(*f, descending);
    let n: usize = rows.len();
    let mut top: TopK<Document> = TopK::new(n, descending);
    proof {
        assert(all.take(0) =~= Seq::<TopRow<Document>>::empty());
    }
    for row in it: rows
        invariant
            it.seq() == all,
            is_ranking(*f),
            lt == page_order(*f, descending),
            top.k == n,
            n == all.len(),
            top.descending == descending,
            top.rows@ == kept(all.take(it.index() as int), lt, n as nat),
    {
        proof {
            let i = it.index() as int;
            assert(all.take(i + 1).drop_last() =~= all.take(i));
            assert(all.take(i + 1).last() == row);
        }
        let (value, key, doc) = row;
        top.feed(value, key, doc, f);
    }
    proof {
        assert(all.take(all.len() as int) =~= all);
        top_k_is_a_sorted_prefix(all, lt, n as nat);
        lemma_sorted_len(all, lt);
    }
    top.rows
}

/// Whether a row lies behind a cursor.
pub open spec fn row_behind<H: Fn(&Value, &Value) -> Rank>(
    h: H,
    descending: bool,
    cursor: Value,
    cursor_key: Seq<u8>,
    row: TopRow<Document>,
) -> bool {
    is_behind(key_rank(h, row.0, cursor, descending), row.1@, cursor_key)
}

/// The rows that lie behind a cursor.
pub open spec fn rows_behind<H: Fn(&Value, &Value) -> Rank>(
    h: H,
    descending: bool,
    cursor: Value,
    cursor_key: Seq<u8>,
    rows: Seq<TopRow<Document>>,
) -> Seq<TopRow<Document>> {
    rows.filter(|r: TopRow<Document>| row_behind(h, descending, cursor, cursor_key, r))
}

fn take_behind<H: Fn(&Value, &Value) -> Rank>(
    h: &H,
    descending: bool,
    cursor: &Value,
    cursor_key: &Vec<u8>,
    rows: Vec<TopRow<Document>>,
) -> (r: Vec<TopRow<Document>>)
    requires
        is_ranking(*h),
    ensures
        r@ == rows_behind(*h, descending, *cursor, cursor_key@, rows@),
{
    let ghost all = rows@;
    let ghost p = |r: TopRow<Document>| row_behind(*h, descending, *cursor, cursor_key@, r);
    let mut out: Vec<TopRow<Document>> = Vec::new();
    proof {
        assert(all.take(0) =~= Seq::<TopRow<Document>>::empty());
        reveal(Seq::filter);
        assert(out@ =~= all.take(0).filter(p));
    }
    for row in it: rows
        invariant
            it.seq() == all,
            is_ranking(*h),
            p == (|r: TopRow<Document>| row_behind(*h, descending, *cursor, cursor_key@, r)),
            out@ == all.take(it.index() as int).filter(p),
    {
        proof {
            reveal(Seq::filter);
            let i = it.index() as int;
            assert(all.take(i + 1).drop_last() =~= all.take(i));
            assert(all.take(i + 1).last() == row);
        }
        let rank = compare_key(h, &row.0, cursor, descending);
        if strictly_after(rank, row.1.as_slice(), cursor_key.as_slice()) {
            out.push(row);
        }
    }
    proof {
        assert(all.take(all.len() as int) =~= all);
    }
    out
}

/// The page behind a cursor: the first rows that lie behind it.
pub open spec fn page_behind<
    F: Fn(&Value, &Value) -> Rank,
    H: Fn(&Value, &Value) -> Rank,
>(
    f: F,
    h: H,
    descending: bool,
    cursor: Value,
    cursor_key: Seq<u8>,
    limit: nat,
    rows: Seq<TopRow<Document>>,
) -> Seq<TopRow<Document>> {
    first_few(
        rows_behind(h, descending, cursor, cursor_key, in_page_order(f, descending, rows)),
        limit,
    )
}

/// What a fetch of a keyset page comes to.
pub enum Settled {
    /// The page.
    Page(Vec<TopRow<Document>>),
    /// Fetch again, this deep.
    Deeper(u64),
    /// The cursor is deeper than the ceiling.
    TooDeep,
}

/// What a fetch of a keyset page comes to.
pub enum SettledView {
    Page(Seq<TopRow<Document>>),
    Deeper(u64),
    TooDeep,
}

/// What a fetch `k` deep comes to: the page where it is full or there are no
/// more matches, a deeper fetch below the ceiling.
pub open spec fn settled<F: Fn(&Value, &Value) -> Rank, H: Fn(&Value, &Value) -> Rank>(
    f: F,
    h: H,
    descending: bool,
    cursor: Value,
    cursor_key: Seq<u8>,
    limit: u64,
    k: u64,
    rows: Seq<TopRow<Document>>,
) -> SettledView {
    let found = rows_behind(h, descending, cursor, cursor_key, in_page_order(f, descending, rows));
    if found.len() >= limit || rows.len() < k {
        SettledView::Page(first_few(found, limit as nat))
    } else if k >= AFTER_FETCH_MAX {
        SettledView::TooDeep
    } else {
        SettledView::Deeper(next_depth(k))
    }
}

/// Cuts the rows behind a cursor to a page.
fn cut(rows: Vec<TopRow<Document>>, limit: u64) -> (r: Vec<TopRow<Document>>)
    ensures
        r@ == first_few(rows@, limit as nat),
{
    let mut out = rows;
    if out.len() as u64 > limit {
        out.truncate(limit as usize);
    }
    out
}

/// The page behind a cursor, of all the matches.
pub fn take_page<F: Fn(&Value, &Value) -> Rank, H: Fn(&Value, &Value) -> Rank>(
    f: &F,
    h: &H,
    descending: bool,
    cursor: &Value,
    cursor_key: &Vec<u8>,
    limit: u64,
    rows: Vec<TopRow<Document>>,
) -> (r: Vec<TopRow<Document>>)
    requires
        is_ranking(*f),
        is_ranking(*h),
    ensures
        r@ == page_behind(*f, *h, descending, *cursor, cursor_key@, limit as nat, rows@),
{
    let sorted = sort_page(f, descending, rows);
    cut(take_behind(h, descending, cursor, cursor_key, sorted), limit)
}

/// What a fetch `k` deep comes to.
pub fn settle<F: Fn(&Value, &Value) -> Rank, H: Fn(&Value, &Value) -> Rank>(
    f: &F,
    h: &H,
    descending: bool,
    cursor: &Value,
    cursor_key: &Vec<u8>,
    limit: u64,
    k: u64,
    rows: Vec<TopRow<Document>>,
) -> (r: Settled)
    requires
        is_ranking(*f),
        is_ranking(*h),
        0 < k <= AFTER_FETCH_MAX,
    ensures
        match settled(*f, *h, descending, *cursor, cursor_key@, limit, k, rows@) {
            SettledView::Page(p) => r matches Settled::Page(out) && out@ == p,
            SettledView::Deeper(n) => r == Settled::Deeper(n) && k < n <= AFTER_FETCH_MAX,
            SettledView::TooDeep => r == Settled::TooDeep,
        },
{
    let fetched: u64 = rows.len() as u64;
    let sorted = sort_page(f, descending, rows);
    let found = take_behind(h, descending, cursor, cursor_key, sorted);
    match after_step(k, fetched, found.len() as u64, limit) {
        AfterStep::Done => Settled::Page(cut(found, limit)),
        AfterStep::Deeper(n) => Settled::Deeper(n),
        AfterStep::TooDeep => Settled::TooDeep,
    }
}

/// Whether no two rows have the same key.
pub open spec fn keys_differ(rows: Seq<TopRow<Document>>) -> bool {
    forall|i: int, j: int|
        0 <= i < j < rows.len() ==> (#[trigger] rows[i]).1@ != (#[trigger] rows[j]).1@
}

proof fn lemma_sorted_keys_differ(
    rows: Seq<TopRow<Document>>,
    lt: spec_fn(TopRow<Document>, TopRow<Document>) -> bool,
)
    requires
        keys_differ(rows),
    ensures
        keys_differ(stable_sorted(rows, lt)),
        forall|i: int|
            0 <= i < stable_sorted(rows, lt).len() ==> rows.contains(
                #[trigger] stable_sorted(rows, lt)[i],
            ),
    decreases rows.len(),
{
    if rows.len() > 0 {
        let init = rows.drop_last();
        assert forall|i: int, j: int| 0 <= i < j < init.len() implies (#[trigger] init[i]).1@ != (
        #[trigger] init[j]).1@ by {
            assert(rows[i].1@ != rows[j].1@);
        }
        lemma_sorted_keys_differ(init, lt);
        let t = stable_sorted(init, lt);
        let x = rows.last();
        lemma_slot_for(t, x, lt);
        let p = slot_for(t, x, lt);
        let all = stable_sorted(rows, lt);
        assert(all == t.insert(p, x));
        let from = |i: int| if i < p {
            i
        } else {
            i - 1
        };
        assert forall|i: int| 0 <= i < all.len() && i != p implies #[trigger] all[i] == t[from(i)]
            && init.contains(all[i]) by {}
        assert forall|i: int| 0 <= i < all.len() implies rows.contains(#[trigger] all[i]) by {
            if i == p {
                assert(rows[rows.len() - 1] == x);
            } else {
                let q = init.index_of(all[i]);
                assert(init.contains(all[i]));
                assert(rows[q] == all[i]);
            }
        }
        assert forall|i: int, j: int| 0 <= i < j < all.len() implies (#[trigger] all[i]).1@ != (
        #[trigger] all[j]).1@ by {
            if i == p || j == p {
                let o = if i == p {
                    j
                } else {
                    i
                };
                assert(init.contains(all[o]));
                let q = init.index_of(all[o]);
                assert(rows[q].1@ != rows[rows.len() - 1].1@);
            } else {
                assert(t[from(i)].1@ != t[from(j)].1@);
            }
        }
    }
}

proof fn lemma_filter_behind<T>(s: Seq<T>, p: spec_fn(T) -> bool, c: int)
    requires
        -1 <= c,
        forall|i: int| 0 <= i < s.len() ==> (p(#[trigger] s[i]) <==> i > c),
    ensures
        s.filter(p) == if c + 1 < s.len() {
            s.skip(c + 1)
        } else {
            Seq::empty()
        },
    decreases s.len(),
{
    reveal(Seq::filter);
    if s.len() > 0 {
        let init = s.drop_last();
        assert forall|i: int| 0 <= i < init.len() implies (p(#[trigger] init[i]) <==> i > c) by {
            assert(init[i] == s[i]);
        }
        lemma_filter_behind(init, p, c);
        assert(s.last() == s[s.len() - 1]);
        if c + 1 < s.len() {
            if c + 1 < init.len() {
                assert(init.skip(c + 1).push(s.last()) =~= s.skip(c + 1));
            } else {
                assert(Seq::<T>::empty().push(s.last()) =~= s.skip(c + 1));
            }
        }
    }
}

/// A page resumes right behind the row that its cursor names: the page behind
/// the row at `c` is the next rows in page order, none skipped and none
/// repeated. The cursor has to be compared as the rows are, by an order whose
/// two directions agree.
pub proof fn page_resumes_behind_its_cursor<
    F: Fn(&Value, &Value) -> Rank,
    H: Fn(&Value, &Value) -> Rank,
>(f: F, h: H, descending: bool, rows: Seq<TopRow<Document>>, c: int, limit: nat)
    requires
        0 <= c < rows.len(),
        keys_differ(rows),
        is_strict_order(page_order(f, descending)),
        forall|a: Value, b: Value| #[trigger]
            key_rank(f, a, b, descending) == reversed(key_rank(f, b, a, descending)),
        forall|a: Value, b: Value| #[trigger]
            key_rank(h, a, b, descending) == key_rank(f, a, b, descending),
    ensures
        ({
            let sorted = in_page_order(f, descending, rows);
            page_behind(f, h, descending, sorted[c].0, sorted[c].1@, limit, rows) == first_few(
                sorted.skip(c + 1),
                limit,
            )
        }),
{
    let lt = page_order(f, descending);
    let sorted = in_page_order(f, descending, rows);
    stable_sort_is_a_sort(rows, lt);
    lemma_sorted_keys_differ(rows, lt);
    let cursor = sorted[c];
    let p = |r: TopRow<Document>| row_behind(h, descending, cursor.0, cursor.1@, r);
    assert forall|i: int| 0 <= i < sorted.len() implies (p(#[trigger] sorted[i]) <==> i > c) by {
        let row = sorted[i];
        assert(key_rank(f, row.0, cursor.0, descending) == reversed(
            key_rank(f, cursor.0, row.0, descending),
        ));
        assert(key_rank(h, row.0, cursor.0, descending) == key_rank(
            f,
            row.0,
            cursor.0,
            descending,
        ));
        assert(p(row) == lt(cursor, row));
        if i < c {
            assert(!lt(sorted[c], sorted[i]));
        } else if i == c {
            lemma_bytes_lt_irrefl(cursor.1@);
        } else {
            assert(!lt(sorted[i], sorted[c]));
            lemma_bytes_lt_total(row.1@, cursor.1@);
        }
    }
    lemma_filter_behind(sorted, p, c);
    if c + 1 == sorted.len() {
        assert(sorted.skip(c + 1) =~= Seq::<TopRow<Document>>::empty());
    }
}

} // verus!
