//! Ordering rows: comparing sort keys, stable sorting, and keeping the best
//! few of a stream.

use vstd::prelude::*;

use crate::bytes::bytes_below;
use crate::bytes::bytes_lt;
use crate::value::Value;

verus! {

/// How two values stand to each other.
#[derive(Clone, Copy, Debug, PartialEq, Eq, Structural)]
pub enum Rank {
    Less,
    Equal,
    Greater,
}

/// The rank seen from the other side.
pub open spec fn reversed(r: Rank) -> Rank {
    match r {
        Rank::Less => Rank::Greater,
        Rank::Equal => Rank::Equal,
        Rank::Greater => Rank::Less,
    }
}

/// What a comparison function says of two values.
pub open spec fn rank_of<F: Fn(&Value, &Value) -> Rank>(f: F, a: Value, b: Value) -> Rank {
    choose|r: Rank| call_ensures(f, (&a, &b), r)
}

/// Whether a comparison function can be called on any two values and always
/// says the same of them.
pub open spec fn is_ranking<F: Fn(&Value, &Value) -> Rank>(f: F) -> bool {
    &&& forall|a: &Value, b: &Value| call_requires(f, (a, b))
    &&& forall|a: &Value, b: &Value, x: Rank, y: Rank|
        call_ensures(f, (a, b), x) && call_ensures(f, (a, b), y) ==> x == y
}

/// How two values of one sort key stand: `NULL` after everything else, the
/// whole order turned round where the key descends.
pub open spec fn key_rank<F: Fn(&Value, &Value) -> Rank>(f: F, a: Value, b: Value, descending: bool) -> Rank {
    let r = if a is Null && b is Null {
        Rank::Equal
    } else if a is Null {
        Rank::Greater
    } else if b is Null {
        Rank::Less
    } else {
        rank_of(f, a, b)
    };
    if descending {
        reversed(r)
    } else {
        r
    }
}

/// How two rows stand by their sort keys: the first key that tells them apart
/// decides.
pub open spec fn row_rank<F: Fn(&Value, &Value) -> Rank>(
    f: F,
    a: Seq<Value>,
    b: Seq<Value>,
    descending: Seq<bool>,
) -> Rank
    decreases a.len(),
{
    if a.len() == 0 || b.len() == 0 || descending.len() == 0 {
        Rank::Equal
    } else {
        let r = key_rank(f, a[0], b[0], descending[0]);
        if r != Rank::Equal {
            r
        } else {
            row_rank(f, a.drop_first(), b.drop_first(), descending.drop_first())
        }
    }
}

/// How two values of one sort key stand.
pub fn compare_key<F: Fn(&Value, &Value) -> Rank>(f: &F, a: &Value, b: &Value, descending: bool) -> (r:
    Rank)
    requires
        is_ranking(*f),
    ensures
        r == key_rank(*f, *a, *b, descending),
{
    let plain = if a.is_null() {
        if b.is_null() {
            Rank::Equal
        } else {
            Rank::Greater
        }
    } else if b.is_null() {
        Rank::Less
    } else {
        let said = f(a, b);
        proof {
            assert(call_ensures(*f, (a, b), said));
        }
        said
    };
    if !descending {
        return plain;
    }
    match plain {
        Rank::Less => Rank::Greater,
        Rank::Equal => Rank::Equal,
        Rank::Greater => Rank::Less,
    }
}

/// Compares two sort-key tuples honoring per-key direction, `NULL`s last. `f`
/// compares two values that are not `NULL`.
pub fn order_compare<F: Fn(&Value, &Value) -> Rank>(
    a: &Vec<Value>,
    b: &Vec<Value>,
    descending: &Vec<bool>,
    f: &F,
) -> (r: Rank)
    requires
        is_ranking(*f),
    ensures
        r == row_rank(*f, a@, b@, descending@),
{
    let mut i: usize = 0;
    proof {
        assert(a@.skip(0) =~= a@);
        assert(b@.skip(0) =~= b@);
        assert(descending@.skip(0) =~= descending@);
    }
    while i < a.len() && i < b.len() && i < descending.len()
        invariant
            i <= a@.len(),
            i <= b@.len(),
            i <= descending@.len(),
            is_ranking(*f),
            row_rank(*f, a@, b@, descending@) == row_rank(
                *f,
                a@.skip(i as int),
                b@.skip(i as int),
                descending@.skip(i as int),
            ),
        decreases a@.len() - i,
    {
        let said = compare_key(f, &a[i], &b[i], descending[i]);
        proof {
            assert(a@.skip(i as int)[0] == a@[i as int]);
            assert(b@.skip(i as int)[0] == b@[i as int]);
            assert(a@.skip(i as int).drop_first() =~= a@.skip(i + 1));
            assert(b@.skip(i as int).drop_first() =~= b@.skip(i + 1));
            assert(descending@.skip(i as int).drop_first() =~= descending@.skip(i + 1));
        }
        if said != Rank::Equal {
            return said;
        }
        i = i + 1;
    }
    Rank::Equal
}

/// `NULL`s sort last going up and first going down.
pub proof fn nulls_sort_last<F: Fn(&Value, &Value) -> Rank>(f: F, v: Value)
    requires
        !(v is Null),
    ensures
        key_rank(f, Value::Null, v, false) == Rank::Greater,
        key_rank(f, v, Value::Null, false) == Rank::Less,
        key_rank(f, Value::Null, v, true) == Rank::Less,
        key_rank(f, v, Value::Null, true) == Rank::Greater,
        key_rank(f, Value::Null, Value::Null, true) == Rank::Equal,
{
}

/// Where `x` goes in a sorted run: before the first element it sorts before.
pub open spec fn slot_for<T>(s: Seq<T>, x: T, lt: spec_fn(T, T) -> bool) -> int
    decreases s.len(),
{
    if s.len() == 0 {
        0
    } else if lt(x, s[0]) {
        0
    } else {
        1 + slot_for(s.drop_first(), x, lt)
    }
}

/// A sorted run with `x` put in behind everything it ties with.
pub open spec fn put_in<T>(s: Seq<T>, x: T, lt: spec_fn(T, T) -> bool) -> Seq<T> {
    s.insert(slot_for(s, x, lt), x)
}

/// A list sorted stably.
pub open spec fn stable_sorted<T>(s: Seq<T>, lt: spec_fn(T, T) -> bool) -> Seq<T>
    decreases s.len(),
{
    if s.len() == 0 {
        Seq::empty()
    } else {
        put_in(stable_sorted(s.drop_last(), lt), s.last(), lt)
    }
}

pub proof fn lemma_slot_for<T>(s: Seq<T>, x: T, lt: spec_fn(T, T) -> bool)
    ensures
        0 <= slot_for(s, x, lt) <= s.len(),
        forall|i: int| 0 <= i < slot_for(s, x, lt) ==> !lt(x, #[trigger] s[i]),
        slot_for(s, x, lt) < s.len() ==> lt(x, s[slot_for(s, x, lt)]),
    decreases s.len(),
{
    if s.len() > 0 && !lt(x, s[0]) {
        let t = s.drop_first();
        lemma_slot_for(t, x, lt);
        assert forall|i: int| 0 <= i < slot_for(s, x, lt) implies !lt(x, #[trigger] s[i]) by {
            if i > 0 {
                assert(s[i] == t[i - 1]);
            }
        }
        if slot_for(t, x, lt) < t.len() {
            assert(s[slot_for(t, x, lt) + 1] == t[slot_for(t, x, lt)]);
        }
    }
}

pub proof fn lemma_slot_for_is<T>(s: Seq<T>, x: T, lt: spec_fn(T, T) -> bool, k: int)
    requires
        0 <= k <= s.len(),
        forall|i: int| 0 <= i < k ==> !lt(x, #[trigger] s[i]),
        k < s.len() ==> lt(x, s[k]),
    ensures
        slot_for(s, x, lt) == k,
{
    lemma_slot_for(s, x, lt);
    let p = slot_for(s, x, lt);
    if p < k {
        assert(!lt(x, s[p]));
    }
    if k < p {
        assert(!lt(x, s[k]));
    }
}

/// Whether `lt` is a strict weak order: nothing sorts before itself, and not
/// sorting before carries over.
pub open spec fn is_strict_order<T>(lt: spec_fn(T, T) -> bool) -> bool {
    &&& forall|a: T| !(#[trigger] lt(a, a))
    &&& forall|a: T, b: T, c: T|
        !(#[trigger] lt(b, a)) && !(#[trigger] lt(c, b)) ==> !lt(c, a)
    &&& forall|a: T, b: T| #[trigger] lt(a, b) ==> !lt(b, a)
}

/// Whether nothing in a run sorts before something that precedes it.
pub open spec fn in_order<T>(s: Seq<T>, lt: spec_fn(T, T) -> bool) -> bool {
    forall|i: int, j: int| 0 <= i < j < s.len() ==> !lt(#[trigger] s[j], #[trigger] s[i])
}

/// Putting an element into an ordered run keeps the order and adds just it.
pub proof fn lemma_put_in<T>(s: Seq<T>, x: T, lt: spec_fn(T, T) -> bool)
    requires
        is_strict_order(lt),
        in_order(s, lt),
    ensures
        in_order(put_in(s, x, lt), lt),
        put_in(s, x, lt).to_multiset() == s.to_multiset().insert(x),
{
    broadcast use vstd::seq_lib::to_multiset_insert;

    lemma_slot_for(s, x, lt);
    let p = slot_for(s, x, lt);
    let t = put_in(s, x, lt);
    assert forall|i: int, j: int| 0 <= i < j < t.len() implies !lt(
        #[trigger] t[j],
        #[trigger] t[i],
    ) by {
        let i0 = if i < p {
            i
        } else {
            i - 1
        };
        let j0 = if j < p {
            j
        } else {
            j - 1
        };
        if i == p {
            assert(t[j] == s[j0]);
            assert(lt(x, s[p]));
            assert(!lt(s[p], x));
            if j0 > p {
                assert(!lt(s[j0], s[p]));
            }
        } else if j == p {
            assert(t[i] == s[i0]);
            assert(!lt(x, s[i0]));
        } else {
            assert(t[i] == s[i0] && t[j] == s[j0]);
            assert(!lt(s[j0], s[i0]));
        }
    }
}

/// A stable sort is in order and holds what the list held.
pub proof fn stable_sort_is_a_sort<T>(s: Seq<T>, lt: spec_fn(T, T) -> bool)
    requires
        is_strict_order(lt),
    ensures
        in_order(stable_sorted(s, lt), lt),
        stable_sorted(s, lt).to_multiset() == s.to_multiset(),
        stable_sorted(s, lt).len() == s.len(),
    decreases s.len(),
{
    broadcast use vstd::seq_lib::to_multiset_build;

    if s.len() > 0 {
        let init = s.drop_last();
        stable_sort_is_a_sort(init, lt);
        lemma_put_in(stable_sorted(init, lt), s.last(), lt);
        lemma_slot_for(stable_sorted(init, lt), s.last(), lt);
        assert(s =~= init.push(s.last()));
    } else {
        assert(s =~= Seq::<T>::empty());
    }
}

/// The first `k` elements, or all where there are fewer.
pub open spec fn first_few<T>(s: Seq<T>, k: nat) -> Seq<T> {
    if k < s.len() {
        s.take(k as int)
    } else {
        s
    }
}

/// Keeping only the best `k` while elements come in gives the same as sorting
/// everything and cutting it to `k`.
pub proof fn lemma_keep_best<T>(s: Seq<T>, x: T, lt: spec_fn(T, T) -> bool, k: nat)
    ensures
        first_few(put_in(first_few(s, k), x, lt), k) == first_few(put_in(s, x, lt), k),
{
    let t = first_few(s, k);
    lemma_slot_for(s, x, lt);
    lemma_slot_for(t, x, lt);
    let p = slot_for(s, x, lt);
    if k < s.len() {
        let q = if p < k {
            p
        } else {
            k as int
        };
        assert forall|i: int| 0 <= i < q implies !lt(x, #[trigger] t[i]) by {
            assert(t[i] == s[i]);
        }
        if q < t.len() {
            assert(t[q] == s[q]);
        }
        lemma_slot_for_is(t, x, lt, q);
        assert(first_few(put_in(t, x, lt), k) =~= first_few(put_in(s, x, lt), k));
    }
}

/// A row of a bounded top-k: its sort value, its key, its document.
pub type TopRow<D> = (Value, Vec<u8>, D);

/// Whether one row sorts before another: by the sort value, then by the row
/// key going up.
pub open spec fn top_before<D, F: Fn(&Value, &Value) -> Rank>(
    f: F,
    descending: bool,
    a: TopRow<D>,
    b: TopRow<D>,
) -> bool {
    match key_rank(f, a.0, b.0, descending) {
        Rank::Less => true,
        Rank::Greater => false,
        Rank::Equal => bytes_lt(a.1@, b.1@),
    }
}

/// The best `k` rows of a stream, best first.
pub struct TopK<D> {
    pub k: usize,
    pub descending: bool,
    pub rows: Vec<TopRow<D>>,
}

impl<D> TopK<D> {
    /// No row yet.
    pub fn new(k: usize, descending: bool) -> (r: TopK<D>)
        ensures
            r.k == k,
            r.descending == descending,
            r.rows@ == Seq::<TopRow<D>>::empty(),
    {
        TopK { k, descending, rows: Vec::new() }
    }

    /// Takes a row in and lets the worst go where there are more than `k`.
    pub fn feed<F: Fn(&Value, &Value) -> Rank>(&mut self, value: Value, key: Vec<u8>, doc: D, f: &F)
        requires
            is_ranking(*f),
        ensures
            final(self).k == old(self).k,
            final(self).descending == old(self).descending,
            final(self).rows@ == first_few(
                put_in(
                    old(self).rows@,
                    (value, key, doc),
                    |a: TopRow<D>, b: TopRow<D>| top_before(*f, old(self).descending, a, b),
                ),
                old(self).k as nat,
            ),
    {
        let ghost lt = |a: TopRow<D>, b: TopRow<D>| top_before(*f, old(self).descending, a, b);
        let ghost s = self.rows@;
        let mut i: usize = 0;
        let n: usize = self.rows.len();
        let mut found: bool = false;
        while i < n && !found
            invariant
                is_ranking(*f),
                self.rows@ == s,
                self.k == old(self).k,
                self.descending == old(self).descending,
                n == s.len(),
                i <= n,
                lt == (|a: TopRow<D>, b: TopRow<D>|
                    top_before(*f, old(self).descending, a, b)),
                forall|j: int| 0 <= j < i ==> !lt((value, key, doc), #[trigger] s[j]),
                found ==> i < n && lt((value, key, doc), s[i as int]),
            decreases n - i, (if found { 0int } else { 1int }),
        {
            let said = compare_key(f, &value, &self.rows[i].0, self.descending);
            let before: bool = match said {
                Rank::Less => true,
                Rank::Greater => false,
                Rank::Equal => bytes_below(key.as_slice(), self.rows[i].1.as_slice()),
            };
            if before {
                found = true;
            } else {
                i = i + 1;
            }
        }
        proof {
            lemma_slot_for_is(s, (value, key, doc), lt, i as int);
        }
        let ghost x = (value, key, doc);
        self.rows.insert(i, (value, key, doc));
        proof {
            assert(self.rows@ == put_in(s, x, lt));
        }
        if self.rows.len() > self.k {
            let k: usize = self.k;
            self.rows.truncate(k);
        }
        proof {
            assert(self.rows@ =~= first_few(put_in(s, x, lt), old(self).k as nat));
        }
    }
}

/// The rows kept after a stream went by.
pub open spec fn kept<T>(items: Seq<T>, lt: spec_fn(T, T) -> bool, k: nat) -> Seq<T>
    decreases items.len(),
{
    if items.len() == 0 {
        Seq::empty()
    } else {
        first_few(put_in(kept(items.drop_last(), lt, k), items.last(), lt), k)
    }
}

/// A bounded top-k is what sorting every row and cutting to `k` would give.
pub proof fn top_k_is_a_sorted_prefix<T>(items: Seq<T>, lt: spec_fn(T, T) -> bool, k: nat)
    ensures
        kept(items, lt, k) == first_few(stable_sorted(items, lt), k),
    decreases items.len(),
{
    if items.len() > 0 {
        let init = items.drop_last();
        top_k_is_a_sorted_prefix(init, lt, k);
        lemma_keep_best(stable_sorted(init, lt), items.last(), lt, k);
    }
}

/// Whether the row at `a` sorts before the row at `b` by their sort keys.
pub open spec fn place_before<F: Fn(&Value, &Value) -> Rank>(
    f: F,
    keys: Seq<Vec<Value>>,
    descending: Seq<bool>,
    a: int,
    b: int,
) -> bool {
    row_rank(f, keys[a]@, keys[b]@, descending) == Rank::Less
}

/// The places `0..n`.
pub open spec fn places(n: nat) -> Seq<int> {
    Seq::new(n, |i: int| i)
}

/// A list of places as integers.
pub open spec fn as_places(ps: Seq<usize>) -> Seq<int> {
    ps.map_values(|p: usize| p as int)
}

/// The places of rows in the order of their sort keys, ties by place; with
/// `top_k`, only the first `k` of them.
pub fn sort_places<F: Fn(&Value, &Value) -> Rank>(
    keys: &Vec<Vec<Value>>,
    descending: &Vec<bool>,
    top_k: Option<usize>,
    f: &F,
) -> (r: Vec<usize>)
    requires
        is_ranking(*f),
    ensures
        as_places(r@) == first_few(
            stable_sorted(
                places(keys@.len()),
                |a: int, b: int| place_before(*f, keys@, descending@, a, b),
            ),
            match top_k {
                Some(k) => k as nat,
                None => keys@.len(),
            },
        ),
        forall|i: int| 0 <= i < r@.len() ==> (#[trigger] r@[i]) < keys@.len(),
{
    let ghost lt = |a: int, b: int| place_before(*f, keys@, descending@, a, b);
    let n: usize = keys.len();
    let k: usize = match top_k {
        Some(k) => k,
        None => n,
    };
    let mut out: Vec<usize> = Vec::new();
    let mut x: usize = 0;
    proof {
        assert(as_places(out@) =~= kept(places(0), lt, k as nat));
    }
    while x < n
        invariant
            is_ranking(*f),
            n == keys@.len(),
            x <= n,
            lt == (|a: int, b: int| place_before(*f, keys@, descending@, a, b)),
            as_places(out@) == kept(places(x as nat), lt, k as nat),
            forall|i: int| 0 <= i < out@.len() ==> (#[trigger] out@[i]) < x,
        decreases n - x,
    {
        let ghost s = as_places(out@);
        let m: usize = out.len();
        let mut i: usize = 0;
        let mut found: bool = false;
        while i < m && !found
            invariant
                is_ranking(*f),
                n == keys@.len(),
                x < n,
                m == out@.len(),
                s == as_places(out@),
                i <= m,
                lt == (|a: int, b: int| place_before(*f, keys@, descending@, a, b)),
                forall|i: int| 0 <= i < out@.len() ==> (#[trigger] out@[i]) < x,
                forall|j: int| 0 <= j < i ==> !lt(x as int, #[trigger] s[j]),
                found ==> i < m && lt(x as int, s[i as int]),
            decreases m - i, (if found { 0int } else { 1int }),
        {
            let other: usize = out[i];
            proof {
                assert(s[i as int] == other as int);
            }
            let said = order_compare(&keys[x], &keys[other], descending, f);
            if said == Rank::Less {
                found = true;
            } else {
                i = i + 1;
            }
        }
        proof {
            lemma_slot_for_is(s, x as int, lt, i as int);
        }
        out.insert(i, x);
        proof {
            assert(as_places(out@) =~= put_in(s, x as int, lt));
        }
        if out.len() > k {
            out.truncate(k);
        }
        proof {
            assert(as_places(out@) =~= first_few(put_in(s, x as int, lt), k as nat));
            let all = places((x + 1) as nat);
            assert(all.drop_last() =~= places(x as nat));
            assert(all.last() == x);
        }
        x = x + 1;
    }
    proof {
        top_k_is_a_sorted_prefix(places(n as nat), lt, k as nat);
    }
    out
}

/// Skips `offset` rows and keeps at most `limit` of the rest.
pub open spec fn page<T>(rows: Seq<T>, offset: Option<u64>, limit: Option<u64>) -> Seq<T> {
    let rest = match offset {
        Some(off) => if off <= rows.len() {
            rows.skip(off as int)
        } else {
            Seq::empty()
        },
        None => rows,
    };
    match limit {
        Some(lim) => first_few(rest, lim as nat),
        None => rest,
    }
}

/// Applies `OFFSET` and `LIMIT`.
pub fn apply_offset_limit<T>(rows: &mut Vec<T>, offset: Option<u64>, limit: Option<u64>)
    ensures
        final(rows)@ == page(old(rows)@, offset, limit),
{
    let ghost all = rows@;
    if let Some(off) = offset {
        let n: usize = rows.len();
        let cut: usize = if off <= n as u64 {
            off as usize
        } else {
            n
        };
        let rest = rows.split_off(cut);
        *rows = rest;
        proof {
            assert(rows@ =~= all.skip(cut as int));
            if off > all.len() {
                assert(rows@ =~= Seq::<T>::empty());
            }
        }
    }
    let ghost rest = rows@;
    if let Some(lim) = limit {
        let n: usize = rows.len();
        if lim < n as u64 {
            rows.truncate(lim as usize);
        }
        proof {
            assert(rows@ =~= first_few(rest, lim as nat));
        }
    }
}

/// Paging by growing offsets walks through every row once: a page and the
/// pages behind it are the rest of the rows.
pub proof fn pages_tile_the_rows<T>(rows: Seq<T>, offset: u64, limit: u64)
    requires
        offset + limit <= u64::MAX,
        offset <= rows.len(),
    ensures
        page(rows, Some(offset), Some(limit)) + page(
            rows,
            Some((offset + limit) as u64),
            None::<u64>,
        ) == page(rows, Some(offset), None::<u64>),
{
    let a = page(rows, Some(offset), Some(limit));
    let b = page(rows, Some((offset + limit) as u64), None::<u64>);
    assert(a + b =~= rows.skip(offset as int));
}

/// The number of rows worth fetching for a page: the skipped ones and the
/// page itself.
pub open spec fn fetch_depth(offset: Option<u64>, limit: u64) -> int {
    let off: int = match offset {
        Some(o) => o as int,
        None => 0,
    };
    if off + limit > u64::MAX {
        u64::MAX as int
    } else {
        off + limit
    }
}

/// The number of rows worth fetching for a page.
pub fn page_depth(offset: Option<u64>, limit: u64) -> (r: u64)
    ensures
        r == fetch_depth(offset, limit),
{
    let off: u64 = match offset {
        Some(o) => o,
        None => 0,
    };
    off.saturating_add(limit)
}

/// Fetching only the rows down to a page's depth loses none of the page.
pub proof fn fetch_depth_covers_the_page<T>(rows: Seq<T>, offset: Option<u64>, limit: u64)
    requires
        rows.len() <= u64::MAX,
    ensures
        page(
            first_few(rows, fetch_depth(offset, limit) as nat),
            offset,
            Some(limit),
        ) == page(rows, offset, Some(limit)),
{
    let few = first_few(rows, fetch_depth(offset, limit) as nat);
    assert(page(few, offset, Some(limit)) =~= page(rows, offset, Some(limit)));
}

} // verus!
