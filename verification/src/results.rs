//! Result sets: sorting, projecting, deduplicating, and paging rows, and
//! combining the legs of a compound query.

use vstd::prelude::*;

use crate::ast::Expr;
use crate::ast::OrderKey;
use crate::ast::Select;
use crate::ast::SelectItem;
use crate::describe::in_order;
use crate::describe::lemma_in_order;
use crate::describe::names_of_set;
use crate::error::unsupported;
use crate::error::EngineError;
use crate::error::ErrorView;
use crate::execute::encode_tuple;
use crate::execute::encoding;
use crate::execute::evaluate;
use crate::execute::evaluated;
use crate::execute::is_encoder;
use crate::execute::is_evaluator;
use crate::execute::row_view;
use crate::execute::row_wf;
use crate::execute::tuple_view;
use crate::model::copy_value;
use crate::model::doc_view;
use crate::model::doc_wf;
use crate::model::value_view;
use crate::model::value_wf;
use crate::model::Fields;
use crate::model::ValueView;
use crate::order::apply_offset_limit;
use crate::order::as_places;
use crate::order::first_few;
use crate::order::is_ranking;
use crate::order::lemma_slot_for;
use crate::order::lemma_slot_for_is;
use crate::order::page;
use crate::order::place_before;
use crate::order::places;
use crate::order::put_in;
use crate::order::row_rank;
use crate::order::slot_for;
use crate::order::sort_places;
use crate::order::stable_sorted;
use crate::order::Rank;
use crate::point_keys::KeySet;
use crate::projection::has_wildcard;
use crate::projection::wildcard;
use crate::projection::NameSet;
use crate::select_plan::output_columns;
use crate::select_plan::output_names;
use crate::text::views;
use crate::value::Document;
use crate::value::Value;

verus! {

/// Columns and rows.
pub struct ResultSet {
    pub columns: Vec<String>,
    pub rows: Vec<Vec<Value>>,
}

/// Columns and rows by what they hold.
pub struct ResultView {
    pub columns: Seq<Seq<char>>,
    pub rows: Seq<Seq<ValueView>>,
}

/// Rows by what each holds.
pub open spec fn rows_view(rows: Seq<Vec<Value>>) -> Seq<Seq<ValueView>> {
    rows.map_values(|r: Vec<Value>| row_view(r@))
}

/// Whether every value of every row is in order.
pub open spec fn rows_wf(rows: Seq<Vec<Value>>) -> bool {
    forall|i: int| 0 <= i < rows.len() ==> row_wf((#[trigger] rows[i])@)
}

impl View for ResultSet {
    type V = ResultView;

    open spec fn view(&self) -> ResultView {
        ResultView { columns: views(self.columns@), rows: rows_view(self.rows@) }
    }
}

/// Whether an earlier row encodes as the row at `i` does.
pub open spec fn repeats<K: Fn(&Vec<&Value>) -> Vec<u8>>(k: K, rows: Seq<Seq<ValueView>>, i: int) -> bool {
    exists|j: int| 0 <= j < i && encoding(k, #[trigger] rows[j]) == encoding(k, rows[i])
}

/// The rows that repeat none before them.
pub open spec fn deduped<K: Fn(&Vec<&Value>) -> Vec<u8>>(k: K, rows: Seq<Seq<ValueView>>) -> Seq<
    Seq<ValueView>,
>
    decreases rows.len(),
{
    if rows.len() == 0 {
        Seq::empty()
    } else if repeats(k, rows, rows.len() - 1) {
        deduped(k, rows.drop_last())
    } else {
        deduped(k, rows.drop_last()).push(rows.last())
    }
}

/// References to the values of a row.
pub fn row_refs<'a>(row: &'a Vec<Value>) -> (r: Vec<&'a Value>)
    ensures
        tuple_view(r@) == row_view(row@),
{
    let mut out: Vec<&'a Value> = Vec::new();
    let mut i: usize = 0;
    while i < row.len()
        invariant
            i <= row@.len(),
            out@.len() == i,
            forall|k: int| 0 <= k < i ==> *(#[trigger] out@[k]) == row@[k],
        decreases row@.len() - i,
    {
        out.push(&row[i]);
        i = i + 1;
    }
    proof {
        assert(tuple_view(out@) =~= row_view(row@));
    }
    out
}

/// Whether a row before the `n`th encodes to `key`.
pub open spec fn seen_key<K: Fn(&Vec<&Value>) -> Vec<u8>>(
    k: K,
    rows: Seq<Seq<ValueView>>,
    n: int,
    key: Seq<u8>,
) -> bool {
    exists|j: int| 0 <= j < n && encoding(k, #[trigger] rows[j]) == key
}

/// Drops every row that repeats one before it.
pub fn dedup_rows<K: Fn(&Vec<&Value>) -> Vec<u8>>(rows: &mut Vec<Vec<Value>>, k: &K)
    requires
        is_encoder(*k),
        rows_wf(old(rows)@),
    ensures
        rows_view(final(rows)@) == deduped(*k, rows_view(old(rows)@)),
        rows_wf(final(rows)@),
{
    let ghost all = rows@;
    let ghost vs = rows_view(all);
    let mut rest: Vec<Vec<Value>> = Vec::new();
    rest.append(rows);
    let mut seen = KeySet::new();
    proof {
        assert(rest@ =~= all);
        assert(vs.take(0) =~= Seq::<Seq<ValueView>>::empty());
        assert(rows_view(rows@) =~= Seq::<Seq<ValueView>>::empty());
    }
    for row in it: rest
        invariant
            is_encoder(*k),
            rows_wf(all),
            vs == rows_view(all),
            it.seq() == all,
            seen.wf(),
            rows_wf(rows@),
            rows_view(rows@) == deduped(*k, vs.take(it.index() as int)),
            forall|key: Seq<u8>| #[trigger] seen@.contains(key) <==> seen_key(*k, vs, it.index(), key),
    {
        let ghost done = it.index() as int;
        let ghost before = rows_view(rows@);
        let ghost old_seen = seen@;
        let key = encode_tuple(k, &row_refs(&row));
        let ghost kv = key@;
        let fresh: bool = seen.add_key(key);
        proof {
            assert(row == all[done]);
            assert(row_wf(all[done]@));
            assert(vs[done] == row_view(row@));
            assert(kv == encoding(*k, vs[done]));
            let now = vs.take(done + 1);
            assert(now.drop_last() =~= vs.take(done));
            assert(now.last() == vs[done]);
            assert(repeats(*k, now, done) <==> seen_key(*k, vs, done, kv)) by {
                if seen_key(*k, vs, done, kv) {
                    let j = choose|j: int|
                        0 <= j < done && encoding(*k, #[trigger] vs[j]) == kv;
                    assert(now[j] == vs[j]);
                }
                if repeats(*k, now, done) {
                    let j = choose|j: int|
                        0 <= j < done && encoding(*k, #[trigger] now[j]) == encoding(*k, now[done]);
                    assert(now[j] == vs[j]);
                }
            }
            assert forall|key: Seq<u8>| #[trigger] seen@.contains(key) <==> seen_key(
                *k,
                vs,
                done + 1,
                key,
            ) by {
                if seen_key(*k, vs, done, key) {
                    let j = choose|j: int|
                        0 <= j < done && encoding(*k, #[trigger] vs[j]) == key;
                    assert(seen_key(*k, vs, done + 1, key));
                }
                if key == kv {
                    assert(encoding(*k, vs[done]) == key);
                }
                if seen_key(*k, vs, done + 1, key) {
                    let j = choose|j: int|
                        0 <= j < done + 1 && encoding(*k, #[trigger] vs[j]) == key;
                    if j < done {
                        assert(seen_key(*k, vs, done, key));
                        assert(old_seen.contains(key));
                    }
                }
            }
        }
        if fresh {
            rows.push(row);
            proof {
                assert(rows_view(rows@) =~= before.push(vs[done]));
            }
        }
    }
    proof {
        assert(vs.take(vs.len() as int) =~= vs);
    }
}

/// Deduplication leaves no row twice and loses no row's encoding.
pub proof fn dedup_keeps_one_of_each<K: Fn(&Vec<&Value>) -> Vec<u8>>(k: K, rows: Seq<Seq<ValueView>>)
    ensures
        forall|i: int, j: int|
            0 <= i < j < deduped(k, rows).len() ==> encoding(k, #[trigger] deduped(k, rows)[i])
                != encoding(k, #[trigger] deduped(k, rows)[j]),
        forall|key: Seq<u8>|
            seen_key(k, rows, rows.len() as int, key) <==> #[trigger] seen_key(
                k,
                deduped(k, rows),
                deduped(k, rows).len() as int,
                key,
            ),
    decreases rows.len(),
{
    if rows.len() > 0 {
        let init = rows.drop_last();
        let d = deduped(k, init);
        let r = deduped(k, rows);
        let n = rows.len() as int;
        let kv = encoding(k, rows[n - 1]);
        dedup_keeps_one_of_each(k, init);
        assert(repeats(k, rows, n - 1) <==> seen_key(k, init, n - 1, kv)) by {
            if repeats(k, rows, n - 1) {
                let j = choose|j: int|
                    0 <= j < n - 1 && encoding(k, #[trigger] rows[j]) == encoding(k, rows[n - 1]);
                assert(init[j] == rows[j]);
            }
            if seen_key(k, init, n - 1, kv) {
                let j = choose|j: int| 0 <= j < n - 1 && encoding(k, #[trigger] init[j]) == kv;
                assert(init[j] == rows[j]);
            }
        }
        assert(seen_key(k, init, n - 1, kv) <==> seen_key(k, d, d.len() as int, kv));
        assert forall|i: int, j: int| 0 <= i < j < r.len() implies encoding(k, #[trigger] r[i])
            != encoding(k, #[trigger] r[j]) by {
            assert(r[i] == d[i]);
            if j < d.len() {
                assert(r[j] == d[j]);
            } else {
                if encoding(k, d[i]) == kv {
                    assert(seen_key(k, d, d.len() as int, kv));
                }
            }
        }
        assert forall|key: Seq<u8>|
            seen_key(k, rows, n, key) <==> #[trigger] seen_key(k, r, r.len() as int, key) by {
            if seen_key(k, rows, n, key) {
                let j = choose|j: int| 0 <= j < n && encoding(k, #[trigger] rows[j]) == key;
                if j < n - 1 {
                    assert(init[j] == rows[j]);
                    assert(seen_key(k, init, n - 1, key));
                    assert(seen_key(k, d, d.len() as int, key));
                    let p = choose|p: int| 0 <= p < d.len() && encoding(k, #[trigger] d[p]) == key;
                    assert(r[p] == d[p]);
                } else if repeats(k, rows, n - 1) {
                    assert(seen_key(k, d, d.len() as int, key));
                } else {
                    assert(r[d.len() as int] == rows[n - 1]);
                }
            }
            if seen_key(k, r, r.len() as int, key) {
                let p = choose|p: int| 0 <= p < r.len() && encoding(k, #[trigger] r[p]) == key;
                if p < d.len() {
                    assert(r[p] == d[p]);
                    assert(seen_key(k, d, d.len() as int, key));
                    assert(seen_key(k, init, n - 1, key));
                    let j = choose|j: int| 0 <= j < n - 1 && encoding(k, #[trigger] init[j]) == key;
                    assert(rows[j] == init[j]);
                } else {
                    assert(encoding(k, rows[n - 1]) == key);
                }
            }
        }
    }
}

/// Everything in a sorted list is from the list.
proof fn lemma_sorted_from<T>(s: Seq<T>, lt: spec_fn(T, T) -> bool)
    ensures
        stable_sorted(s, lt).len() == s.len(),
        forall|i: int|
            0 <= i < stable_sorted(s, lt).len() ==> s.contains(#[trigger] stable_sorted(s, lt)[i]),
    decreases s.len(),
{
    if s.len() > 0 {
        let init = s.drop_last();
        let r = stable_sorted(init, lt);
        lemma_sorted_from(init, lt);
        lemma_slot_for(r, s.last(), lt);
        let p = slot_for(r, s.last(), lt);
        let t = stable_sorted(s, lt);
        assert(t == put_in(r, s.last(), lt));
        assert forall|i: int| 0 <= i < t.len() implies s.contains(#[trigger] t[i]) by {
            if i == p {
                assert(s[s.len() - 1] == t[i]);
            } else {
                let q = if i < p {
                    i
                } else {
                    i - 1
                };
                assert(t[i] == r[q]);
                assert(init.contains(r[q]));
                let j = choose|j: int| 0 <= j < init.len() && init[j] == r[q];
                assert(s[j] == r[q]);
            }
        }
    }
}

/// Two orders that agree on what a list holds sort it alike.
pub proof fn lemma_sorted_agree<T>(
    s: Seq<T>,
    a: spec_fn(T, T) -> bool,
    b: spec_fn(T, T) -> bool,
)
    requires
        forall|x: T, y: T|
            #![trigger a(x, y)]
            #![trigger b(x, y)]
            s.contains(x) && s.contains(y) ==> a(x, y) == b(x, y),
    ensures
        stable_sorted(s, a) == stable_sorted(s, b),
    decreases s.len(),
{
    if s.len() > 0 {
        let init = s.drop_last();
        assert forall|x: T| init.contains(x) implies s.contains(x) by {
            let j = choose|j: int| 0 <= j < init.len() && init[j] == x;
            assert(s[j] == x);
        }
        lemma_sorted_agree(init, a, b);
        let r = stable_sorted(init, a);
        let x = s.last();
        assert(s[s.len() - 1] == x);
        lemma_sorted_from(init, a);
        lemma_slot_for(r, x, a);
        let p = slot_for(r, x, a);
        assert forall|i: int| 0 <= i < p implies !b(x, #[trigger] r[i]) by {
            assert(init.contains(r[i]));
            assert(!a(x, r[i]));
        }
        if p < r.len() {
            assert(init.contains(r[p]));
            assert(a(x, r[p]));
        }
        lemma_slot_for_is(r, x, b, p);
    }
}

/// Expressions that are referred to.
pub open spec fn exprs_of(es: Seq<&Expr>) -> Seq<Expr> {
    es.map_values(|e: &Expr| *e)
}

/// The sort key of a row: its first `n` expressions.
pub open spec fn key_tuple<F: Fn(&Expr, &Document) -> Result<Value, EngineError>>(
    f: F,
    exprs: Seq<Expr>,
    m: Fields,
    n: nat,
) -> Result<Seq<Value>, EngineError>
    decreases n,
{
    if n == 0 {
        Ok(Seq::empty())
    } else {
        match key_tuple(f, exprs, m, (n - 1) as nat) {
            Err(e) => Err(e),
            Ok(vs) => match evaluated(f, exprs[n - 1], m) {
                Err(e) => Err(e),
                Ok(v) => Ok(vs.push(v)),
            },
        }
    }
}

proof fn lemma_key_tuple_fails<F: Fn(&Expr, &Document) -> Result<Value, EngineError>>(
    f: F,
    exprs: Seq<Expr>,
    m: Fields,
    k: nat,
    n: nat,
)
    requires
        k <= n,
        key_tuple(f, exprs, m, k) is Err,
    ensures
        key_tuple(f, exprs, m, n) == key_tuple(f, exprs, m, k),
    decreases n - k,
{
    if k < n {
        lemma_key_tuple_fails(f, exprs, m, k, (n - 1) as nat);
    }
}

fn sort_key<F: Fn(&Expr, &Document) -> Result<Value, EngineError>>(
    f: &F,
    exprs: &Vec<&Expr>,
    doc: &Document,
) -> (r: Result<Vec<Value>, EngineError>)
    requires
        is_evaluator(*f),
    ensures
        match r {
            Ok(vs) => key_tuple(*f, exprs_of(exprs@), doc_view(*doc), exprs_of(exprs@).len()) == Ok::<
                Seq<Value>,
                EngineError,
            >(vs@) && row_wf(vs@),
            Err(e) => key_tuple(*f, exprs_of(exprs@), doc_view(*doc), exprs_of(exprs@).len()) == Err::<
                Seq<Value>,
                EngineError,
            >(e),
        },
{
    let mut out: Vec<Value> = Vec::new();
    let mut i: usize = 0;
    proof {
        assert(out@ =~= Seq::<Value>::empty());
    }
    while i < exprs.len()
        invariant
            is_evaluator(*f),
            i <= exprs_of(exprs@).len(),
            row_wf(out@),
            key_tuple(*f, exprs_of(exprs@), doc_view(*doc), i as nat) == Ok::<Seq<Value>, EngineError>(out@),
        decreases exprs_of(exprs@).len() - i,
    {
        match evaluate(f, exprs[i], doc) {
            Err(e) => {
                proof {
                    lemma_key_tuple_fails(
                        *f,
                        exprs_of(exprs@),
                        doc_view(*doc),
                        (i + 1) as nat,
                        exprs_of(exprs@).len(),
                    );
                }
                return Err(e);
            },
            Ok(v) => {
                out.push(v);
            },
        }
        i = i + 1;
    }
    Ok(out)
}

/// The sort keys of rows, in order; the first that cannot be evaluated fails
/// the whole.
pub open spec fn key_tuples<F: Fn(&Expr, &Document) -> Result<Value, EngineError>>(
    f: F,
    exprs: Seq<Expr>,
    ms: Seq<Fields>,
) -> Result<Seq<Seq<Value>>, EngineError>
    decreases ms.len(),
{
    if ms.len() == 0 {
        Ok(Seq::empty())
    } else {
        match key_tuples(f, exprs, ms.drop_last()) {
            Err(e) => Err(e),
            Ok(ks) => match key_tuple(f, exprs, ms.last(), exprs.len()) {
                Err(e) => Err(e),
                Ok(k) => Ok(ks.push(k)),
            },
        }
    }
}

proof fn lemma_key_tuples<F: Fn(&Expr, &Document) -> Result<Value, EngineError>>(
    f: F,
    exprs: Seq<Expr>,
    ms: Seq<Fields>,
    k: int,
)
    requires
        0 <= k <= ms.len(),
    ensures
        key_tuples(f, exprs, ms.take(k)) is Err ==> key_tuples(f, exprs, ms) == key_tuples(
            f,
            exprs,
            ms.take(k),
        ),
    decreases ms.len() - k,
{
    if k == ms.len() {
        assert(ms.take(k) =~= ms);
    } else {
        assert(ms.take(k + 1).drop_last() =~= ms.take(k));
        lemma_key_tuples(f, exprs, ms, k + 1);
    }
}

/// Whether the row with the key at `a` sorts before the one at `b`.
pub open spec fn key_before<G: Fn(&Value, &Value) -> Rank>(
    g: G,
    ks: Seq<Seq<Value>>,
    descending: Seq<bool>,
    a: int,
    b: int,
) -> bool {
    row_rank(g, ks[a], ks[b], descending) == Rank::Less
}

/// The places of rows in the order of their sort keys, ties by place.
pub open spec fn key_order<G: Fn(&Value, &Value) -> Rank>(
    g: G,
    ks: Seq<Seq<Value>>,
    descending: Seq<bool>,
    top: Option<usize>,
) -> Seq<int> {
    first_few(
        stable_sorted(
            places(ks.len()),
            |a: int, b: int| key_before(g, ks, descending, a, b),
        ),
        match top {
            Some(k) => k as nat,
            None => ks.len(),
        },
    )
}

/// Tuples of values.
pub open spec fn tuples(ks: Seq<Vec<Value>>) -> Seq<Seq<Value>> {
    ks.map_values(|k: Vec<Value>| k@)
}

/// The places of rows in the order of their sort keys.
pub fn order_by_keys<G: Fn(&Value, &Value) -> Rank>(
    g: &G,
    keys: &Vec<Vec<Value>>,
    descending: &Vec<bool>,
    top: Option<usize>,
) -> (r: Vec<usize>)
    requires
        is_ranking(*g),
    ensures
        as_places(r@) == key_order(*g, tuples(keys@), descending@, top),
        forall|i: int| 0 <= i < r@.len() ==> (#[trigger] r@[i]) < keys@.len(),
{
    let r = sort_places(keys, descending, top, g);
    proof {
        let ks = tuples(keys@);
        let a = |a: int, b: int| place_before(*g, keys@, descending@, a, b);
        let b = |a: int, b: int| key_before(*g, ks, descending@, a, b);
        let s = places(keys@.len());
        assert forall|x: int, y: int| s.contains(x) && s.contains(y) implies a(x, y) == b(x, y) by {
            assert(0 <= x < keys@.len());
            assert(0 <= y < keys@.len());
            assert(ks[x] == keys@[x]@);
            assert(ks[y] == keys@[y]@);
        }
        lemma_sorted_agree(s, a, b);
        assert(ks.len() == keys@.len());
    }
    r
}

/// The chosen documents by what each holds.
pub open spec fn picked(docs: Seq<Document>, chosen: Seq<usize>) -> Seq<Fields> {
    chosen.map_values(|p: usize| doc_view(docs[p as int]))
}

/// Whether every chosen place is one of the documents.
pub open spec fn in_docs(docs: Seq<Document>, chosen: Seq<usize>) -> bool {
    forall|i: int| 0 <= i < chosen.len() ==> (#[trigger] chosen[i]) < docs.len()
}

/// Whether every document's fields are in order.
pub open spec fn docs_wf(docs: Seq<Document>) -> bool {
    forall|i: int| 0 <= i < docs.len() ==> doc_wf(#[trigger] docs[i])
}

/// What is at places of a list.
pub open spec fn at_places<T>(s: Seq<T>, ps: Seq<int>) -> Seq<T> {
    ps.map_values(|p: int| s[p])
}

/// Documents sorted by expressions, the first few of them where only those are
/// wanted; nothing is sorted or cut without an expression.
pub open spec fn sorted_docs<
    F: Fn(&Expr, &Document) -> Result<Value, EngineError>,
    G: Fn(&Value, &Value) -> Rank,
>(
    f: F,
    g: G,
    exprs: Seq<Expr>,
    descending: Seq<bool>,
    ms: Seq<Fields>,
    top: Option<usize>,
) -> Result<Seq<Fields>, EngineError> {
    if exprs.len() == 0 {
        Ok(ms)
    } else {
        match key_tuples(f, exprs, ms) {
            Err(e) => Err(e),
            Ok(ks) => Ok(at_places(ms, key_order(g, ks, descending, top))),
        }
    }
}

proof fn lemma_key_tuples_len<F: Fn(&Expr, &Document) -> Result<Value, EngineError>>(
    f: F,
    exprs: Seq<Expr>,
    ms: Seq<Fields>,
)
    ensures
        key_tuples(f, exprs, ms) matches Ok(ks) ==> ks.len() == ms.len(),
    decreases ms.len(),
{
    if ms.len() > 0 {
        lemma_key_tuples_len(f, exprs, ms.drop_last());
    }
}

/// Sorts chosen documents by expressions.
pub fn sort_docs<
    F: Fn(&Expr, &Document) -> Result<Value, EngineError>,
    G: Fn(&Value, &Value) -> Rank,
>(
    f: &F,
    g: &G,
    exprs: &Vec<&Expr>,
    descending: &Vec<bool>,
    docs: &Vec<Document>,
    chosen: Vec<usize>,
    top: Option<usize>,
) -> (r: Result<Vec<usize>, EngineError>)
    requires
        is_evaluator(*f),
        is_ranking(*g),
        in_docs(docs@, chosen@),
    ensures
        match r {
            Ok(out) => sorted_docs(
                *f,
                *g,
                exprs_of(exprs@),
                descending@,
                picked(docs@, chosen@),
                top,
            ) == Ok::<Seq<Fields>, EngineError>(picked(docs@, out@)) && in_docs(docs@, out@),
            Err(e) => sorted_docs(
                *f,
                *g,
                exprs_of(exprs@),
                descending@,
                picked(docs@, chosen@),
                top,
            ) == Err::<Seq<Fields>, EngineError>(e),
        },
{
    if exprs.len() == 0 {
        return Ok(chosen);
    }
    let ghost ms = picked(docs@, chosen@);
    let mut keys: Vec<Vec<Value>> = Vec::new();
    let mut i: usize = 0;
    proof {
        assert(ms.take(0) =~= Seq::<Fields>::empty());
        assert(tuples(keys@) =~= Seq::<Seq<Value>>::empty());
    }
    while i < chosen.len()
        invariant
            is_evaluator(*f),
            in_docs(docs@, chosen@),
            ms == picked(docs@, chosen@),
            i <= chosen@.len(),
            exprs_of(exprs@).len() > 0,
            key_tuples(*f, exprs_of(exprs@), ms.take(i as int)) == Ok::<Seq<Seq<Value>>, EngineError>(
                tuples(keys@),
            ),
        decreases chosen@.len() - i,
    {
        let ghost before = tuples(keys@);
        proof {
            assert(ms.take(i + 1).drop_last() =~= ms.take(i as int));
            assert(ms.take(i + 1).last() == doc_view(docs@[chosen@[i as int] as int]));
        }
        match sort_key(f, exprs, &docs[chosen[i]]) {
            Err(e) => {
                proof {
                    lemma_key_tuples(*f, exprs_of(exprs@), ms, i + 1);
                }
                return Err(e);
            },
            Ok(k) => {
                let ghost kv = k@;
                keys.push(k);
                proof {
                    assert(tuples(keys@) =~= before.push(kv));
                }
            },
        }
        i = i + 1;
    }
    proof {
        assert(ms.take(ms.len() as int) =~= ms);
        lemma_key_tuples_len(*f, exprs_of(exprs@), ms);
        assert(tuples(keys@).len() == keys@.len());
    }
    let ps = order_by_keys(g, &keys, descending, top);
    let mut out: Vec<usize> = Vec::new();
    let mut j: usize = 0;
    while j < ps.len()
        invariant
            in_docs(docs@, chosen@),
            keys@.len() == chosen@.len(),
            forall|i: int| 0 <= i < ps@.len() ==> (#[trigger] ps@[i]) < keys@.len(),
            j <= ps@.len(),
            out@.len() == j,
            forall|i: int| 0 <= i < j ==> (#[trigger] out@[i]) == chosen@[ps@[i] as int],
        decreases ps@.len() - j,
    {
        out.push(chosen[ps[j]]);
        j = j + 1;
    }
    proof {
        assert(picked(docs@, out@) =~= at_places(ms, as_places(ps@)));
        assert forall|i: int| 0 <= i < out@.len() implies (#[trigger] out@[i]) < docs@.len() by {
            assert(out@[i] == chosen@[ps@[i] as int]);
        }
    }
    Ok(out)
}

/// The fields of documents that `*` stands for: all but the hidden.
pub open spec fn shown_fields(ms: Seq<Fields>, hide: Set<Seq<char>>) -> Set<Seq<char>> {
    Set::new(|n: Seq<char>| !hide.contains(n) && field_of_some(ms, n))
}

/// Whether some document has a field.
pub open spec fn field_of_some(ms: Seq<Fields>, n: Seq<char>) -> bool {
    exists|i: int| 0 <= i < ms.len() && (#[trigger] ms[i]).dom().contains(n)
}

fn add_fields(set: &mut NameSet, doc: &Document, hide: &NameSet)
    requires
        old(set).wf(),
        hide.wf(),
        doc_wf(*doc),
    ensures
        final(set).wf(),
        forall|n: Seq<char>| #[trigger]
            final(set)@.contains(n) <==> old(set)@.contains(n) || (!hide@.contains(n) && doc_view(
                *doc,
            ).dom().contains(n)),
{
    let ghost start = set@;
    let ghost es = doc.fields.entries@;
    let mut i: usize = 0;
    while i < doc.fields.len()
        invariant
            set.wf(),
            hide.wf(),
            doc_wf(*doc),
            es == doc.fields.entries@,
            i <= es.len(),
            forall|n: Seq<char>| #[trigger]
                set@.contains(n) <==> start.contains(n) || (!hide@.contains(n) && exists|j: int|
                    0 <= j < i && (#[trigger] es[j]).0@ == n),
        decreases es.len() - i,
    {
        let ghost before = set@;
        let name = doc.fields.key_at(i);
        if !hide.contains(name.as_str()) {
            set.add_name(name.clone());
        }
        proof {
            assert forall|n: Seq<char>| #[trigger]
                set@.contains(n) <==> start.contains(n) || (!hide@.contains(n) && exists|j: int|
                    0 <= j < i + 1 && (#[trigger] es[j]).0@ == n) by {
                assert(before.contains(n) <==> start.contains(n) || (!hide@.contains(n) && exists|
                    j: int,
                | 0 <= j < i && (#[trigger] es[j]).0@ == n));
                assert(es[i as int].0@ == name@);
            }
        }
        i = i + 1;
    }
    proof {
        assert forall|n: Seq<char>| #[trigger]
            set@.contains(n) <==> start.contains(n) || (!hide@.contains(n) && doc_view(
                *doc,
            ).dom().contains(n)) by {
            assert(doc_view(*doc).dom().contains(n) <==> crate::sorted_map::holds_key(es, n));
        }
    }
}

fn wildcard_fields(docs: &Vec<Document>, chosen: &Vec<usize>, hide: &NameSet) -> (r: Vec<String>)
    requires
        docs_wf(docs@),
        in_docs(docs@, chosen@),
        hide.wf(),
    ensures
        views(r@) == in_order(shown_fields(picked(docs@, chosen@), hide@)),
{
    let ghost ms = picked(docs@, chosen@);
    let mut set = NameSet::new();
    let mut i: usize = 0;
    while i < chosen.len()
        invariant
            docs_wf(docs@),
            in_docs(docs@, chosen@),
            hide.wf(),
            set.wf(),
            ms == picked(docs@, chosen@),
            i <= chosen@.len(),
            forall|n: Seq<char>| #[trigger]
                set@.contains(n) <==> !hide@.contains(n) && field_of_some(ms.take(i as int), n),
        decreases chosen@.len() - i,
    {
        let ghost before = set@;
        add_fields(&mut set, &docs[chosen[i]], hide);
        proof {
            let now = ms.take(i + 1);
            let old_ms = ms.take(i as int);
            assert(ms[i as int] == doc_view(docs@[chosen@[i as int] as int]));
            assert forall|n: Seq<char>| #[trigger]
                set@.contains(n) <==> !hide@.contains(n) && field_of_some(now, n) by {
                assert(before.contains(n) <==> !hide@.contains(n) && field_of_some(old_ms, n));
                if field_of_some(old_ms, n) {
                    let j = choose|j: int| 0 <= j < old_ms.len() && (#[trigger] old_ms[j]).dom().contains(n);
                    assert(now[j] == old_ms[j]);
                }
                if field_of_some(now, n) {
                    let j = choose|j: int| 0 <= j < now.len() && (#[trigger] now[j]).dom().contains(n);
                    if j < i {
                        assert(old_ms[j] == now[j]);
                    }
                }
                assert(now[i as int] == ms[i as int]);
            }
        }
        i = i + 1;
    }
    proof {
        assert(ms.take(ms.len() as int) =~= ms);
        assert(set@ =~= shown_fields(ms, hide@));
        lemma_in_order(set);
    }
    names_of_set(&set)
}

/// A field of a document, `NULL` where it has none.
pub open spec fn field_or_null(m: Fields, n: Seq<char>) -> ValueView {
    if m.dom().contains(n) {
        m[n]
    } else {
        ValueView::Null
    }
}

/// The values of one projected item.
pub open spec fn item_values<F: Fn(&Expr, &Document) -> Result<Value, EngineError>>(
    f: F,
    item: SelectItem,
    fields: Seq<Seq<char>>,
    m: Fields,
) -> Result<Seq<ValueView>, EngineError> {
    match item {
        SelectItem::Wildcard => Ok(fields.map_values(|n: Seq<char>| field_or_null(m, n))),
        SelectItem::Expr { expr, .. } => match evaluated(f, expr, m) {
            Err(e) => Err(e),
            Ok(v) => Ok(seq![value_view(v)]),
        },
    }
}

/// The first `n` items of a projected row.
pub open spec fn projected_row<F: Fn(&Expr, &Document) -> Result<Value, EngineError>>(
    f: F,
    items: Seq<SelectItem>,
    fields: Seq<Seq<char>>,
    m: Fields,
    n: nat,
) -> Result<Seq<ValueView>, EngineError>
    decreases n,
{
    if n == 0 {
        Ok(Seq::empty())
    } else {
        match projected_row(f, items, fields, m, (n - 1) as nat) {
            Err(e) => Err(e),
            Ok(row) => match item_values(f, items[n - 1], fields, m) {
                Err(e) => Err(e),
                Ok(vs) => Ok(row + vs),
            },
        }
    }
}

proof fn lemma_projected_row_fails<F: Fn(&Expr, &Document) -> Result<Value, EngineError>>(
    f: F,
    items: Seq<SelectItem>,
    fields: Seq<Seq<char>>,
    m: Fields,
    k: nat,
    n: nat,
)
    requires
        k <= n,
        projected_row(f, items, fields, m, k) is Err,
    ensures
        projected_row(f, items, fields, m, n) == projected_row(f, items, fields, m, k),
    decreases n - k,
{
    if k < n {
        lemma_projected_row_fails(f, items, fields, m, k, (n - 1) as nat);
    }
}

fn push_fields(row: &mut Vec<Value>, doc: &Document, fields: &Vec<String>)
    requires
        doc_wf(*doc),
        row_wf(old(row)@),
    ensures
        row_wf(final(row)@),
        row_view(final(row)@) == row_view(old(row)@) + views(fields@).map_values(
            |n: Seq<char>| field_or_null(doc_view(*doc), n),
        ),
{
    let ghost start = row_view(row@);
    let ghost m = doc_view(*doc);
    let ghost vs = views(fields@).map_values(|n: Seq<char>| field_or_null(m, n));
    let mut i: usize = 0;
    proof {
        assert(start + vs.take(0) =~= start);
    }
    while i < fields.len()
        invariant
            doc_wf(*doc),
            m == doc_view(*doc),
            vs == views(fields@).map_values(|n: Seq<char>| field_or_null(m, n)),
            row_wf(row@),
            i <= fields@.len(),
            row_view(row@) == start + vs.take(i as int),
        decreases fields@.len() - i,
    {
        let ghost before = row_view(row@);
        let v = match doc.field(fields[i].as_str()) {
            Some(v) => copy_value(v),
            None => Value::Null,
        };
        proof {
            assert(views(fields@)[i as int] == fields@[i as int]@);
            assert(value_view(v) == vs[i as int]);
        }
        let ghost held = value_view(v);
        row.push(v);
        proof {
            assert(row_view(row@) =~= before.push(held));
            assert(row_view(row@) =~= start + vs.take(i + 1));
        }
        i = i + 1;
    }
    proof {
        assert(vs.take(vs.len() as int) =~= vs);
    }
}

fn project_row<F: Fn(&Expr, &Document) -> Result<Value, EngineError>>(
    f: &F,
    items: &Vec<SelectItem>,
    fields: &Vec<String>,
    doc: &Document,
) -> (r: Result<Vec<Value>, EngineError>)
    requires
        is_evaluator(*f),
        doc_wf(*doc),
    ensures
        match r {
            Ok(row) => projected_row(
                *f,
                items@,
                views(fields@),
                doc_view(*doc),
                items@.len(),
            ) == Ok::<Seq<ValueView>, EngineError>(row_view(row@)) && row_wf(row@),
            Err(e) => projected_row(*f, items@, views(fields@), doc_view(*doc), items@.len())
                == Err::<Seq<ValueView>, EngineError>(e),
        },
{
    let ghost fs = views(fields@);
    let ghost m = doc_view(*doc);
    let mut row: Vec<Value> = Vec::new();
    let mut i: usize = 0;
    proof {
        assert(row_view(row@) =~= Seq::<ValueView>::empty());
    }
    while i < items.len()
        invariant
            is_evaluator(*f),
            doc_wf(*doc),
            fs == views(fields@),
            m == doc_view(*doc),
            row_wf(row@),
            i <= items@.len(),
            projected_row(*f, items@, fs, m, i as nat) == Ok::<Seq<ValueView>, EngineError>(
                row_view(row@),
            ),
        decreases items@.len() - i,
    {
        let ghost before = row_view(row@);
        match &items[i] {
            SelectItem::Wildcard => {
                push_fields(&mut row, doc, fields);
            },
            SelectItem::Expr { expr, .. } => {
                match evaluate(f, expr, doc) {
                    Err(e) => {
                        proof {
                            lemma_projected_row_fails(
                                *f,
                                items@,
                                fs,
                                m,
                                (i + 1) as nat,
                                items@.len(),
                            );
                        }
                        return Err(e);
                    },
                    Ok(v) => {
                        let ghost held = value_view(v);
                        row.push(v);
                        proof {
                            assert(row_view(row@) =~= before + seq![held]);
                        }
                    },
                }
            },
        }
        i = i + 1;
    }
    Ok(row)
}

/// The projected rows of documents, in order.
pub open spec fn projected_rows<F: Fn(&Expr, &Document) -> Result<Value, EngineError>>(
    f: F,
    items: Seq<SelectItem>,
    fields: Seq<Seq<char>>,
    ms: Seq<Fields>,
) -> Result<Seq<Seq<ValueView>>, EngineError>
    decreases ms.len(),
{
    if ms.len() == 0 {
        Ok(Seq::empty())
    } else {
        match projected_rows(f, items, fields, ms.drop_last()) {
            Err(e) => Err(e),
            Ok(rows) => match projected_row(f, items, fields, ms.last(), items.len()) {
                Err(e) => Err(e),
                Ok(row) => Ok(rows.push(row)),
            },
        }
    }
}

proof fn lemma_projected_rows_fail<F: Fn(&Expr, &Document) -> Result<Value, EngineError>>(
    f: F,
    items: Seq<SelectItem>,
    fields: Seq<Seq<char>>,
    ms: Seq<Fields>,
    k: int,
)
    requires
        0 <= k <= ms.len(),
        projected_rows(f, items, fields, ms.take(k)) is Err,
    ensures
        projected_rows(f, items, fields, ms) == projected_rows(f, items, fields, ms.take(k)),
    decreases ms.len() - k,
{
    if k == ms.len() {
        assert(ms.take(k) =~= ms);
    } else {
        assert(ms.take(k + 1).drop_last() =~= ms.take(k));
        lemma_projected_rows_fail(f, items, fields, ms, k + 1);
    }
}

fn project_rows<F: Fn(&Expr, &Document) -> Result<Value, EngineError>>(
    f: &F,
    items: &Vec<SelectItem>,
    fields: &Vec<String>,
    docs: &Vec<Document>,
    chosen: &Vec<usize>,
) -> (r: Result<Vec<Vec<Value>>, EngineError>)
    requires
        is_evaluator(*f),
        docs_wf(docs@),
        in_docs(docs@, chosen@),
    ensures
        match r {
            Ok(rows) => projected_rows(*f, items@, views(fields@), picked(docs@, chosen@)) == Ok::<
                Seq<Seq<ValueView>>,
                EngineError,
            >(rows_view(rows@)) && rows_wf(rows@),
            Err(e) => projected_rows(*f, items@, views(fields@), picked(docs@, chosen@)) == Err::<
                Seq<Seq<ValueView>>,
                EngineError,
            >(e),
        },
{
    let ghost fs = views(fields@);
    let ghost ms = picked(docs@, chosen@);
    let mut rows: Vec<Vec<Value>> = Vec::new();
    let mut i: usize = 0;
    proof {
        assert(ms.take(0) =~= Seq::<Fields>::empty());
        assert(rows_view(rows@) =~= Seq::<Seq<ValueView>>::empty());
    }
    while i < chosen.len()
        invariant
            is_evaluator(*f),
            docs_wf(docs@),
            in_docs(docs@, chosen@),
            fs == views(fields@),
            ms == picked(docs@, chosen@),
            rows_wf(rows@),
            i <= chosen@.len(),
            projected_rows(*f, items@, fs, ms.take(i as int)) == Ok::<
                Seq<Seq<ValueView>>,
                EngineError,
            >(rows_view(rows@)),
        decreases chosen@.len() - i,
    {
        let ghost before = rows_view(rows@);
        proof {
            assert(ms.take(i + 1).drop_last() =~= ms.take(i as int));
            assert(ms.take(i + 1).last() == doc_view(docs@[chosen@[i as int] as int]));
            assert(doc_wf(docs@[chosen@[i as int] as int]));
        }
        match project_row(f, items, fields, &docs[chosen[i]]) {
            Err(e) => {
                proof {
                    lemma_projected_rows_fail(*f, items@, fs, ms, i + 1);
                }
                return Err(e);
            },
            Ok(row) => {
                let ghost held = row_view(row@);
                rows.push(row);
                proof {
                    assert(rows_view(rows@) =~= before.push(held));
                }
            },
        }
        i = i + 1;
    }
    proof {
        assert(ms.take(ms.len() as int) =~= ms);
    }
    Ok(rows)
}

/// The expressions of sort keys.
pub open spec fn order_exprs(order_by: Seq<OrderKey>) -> Seq<Expr> {
    order_by.map_values(|k: OrderKey| k.expr)
}

/// The directions of sort keys.
pub open spec fn order_directions(order_by: Seq<OrderKey>) -> Seq<bool> {
    order_by.map_values(|k: OrderKey| k.descending)
}

/// The expressions and directions of sort keys.
pub fn order_parts<'a>(order_by: &'a Vec<OrderKey>) -> (r: (Vec<&'a Expr>, Vec<bool>))
    ensures
        exprs_of(r.0@) == order_exprs(order_by@),
        r.1@ == order_directions(order_by@),
{
    let mut exprs: Vec<&'a Expr> = Vec::new();
    let mut descending: Vec<bool> = Vec::new();
    let mut i: usize = 0;
    while i < order_by.len()
        invariant
            i <= order_by@.len(),
            exprs@.len() == i,
            descending@.len() == i,
            forall|k: int| 0 <= k < i ==> *(#[trigger] exprs@[k]) == order_by@[k].expr,
            forall|k: int| 0 <= k < i ==> (#[trigger] descending@[k]) == order_by@[k].descending,
        decreases order_by@.len() - i,
    {
        exprs.push(&order_by[i].expr);
        descending.push(order_by[i].descending);
        i = i + 1;
    }
    proof {
        assert(exprs_of(exprs@) =~= order_exprs(order_by@));
        assert(descending@ =~= order_directions(order_by@));
    }
    (exprs, descending)
}

/// How many sorted rows a query can show: without `DISTINCT`, up to the end of
/// its page.
pub open spec fn rows_wanted(sel: Select) -> Option<usize> {
    if sel.distinct {
        None
    } else {
        match sel.limit {
            Some(l) => {
                let end = sel.offset.unwrap_or(0) + l;
                Some(
                    (if end > u64::MAX {
                        u64::MAX as int
                    } else {
                        end
                    }) as usize,
                )
            },
            None => None,
        }
    }
}

fn wanted_rows(sel: &Select) -> (r: Option<usize>)
    ensures
        r == rows_wanted(*sel),
{
    if sel.distinct {
        return None;
    }
    match sel.limit {
        None => None,
        Some(l) => {
            let o: u64 = match sel.offset {
                Some(o) => o,
                None => 0,
            };
            let end: u64 = match o.checked_add(l) {
                Some(n) => n,
                None => u64::MAX,
            };
            Some(end as usize)
        },
    }
}

/// The documents that a query shows, in order: sorted unless they came sorted,
/// and cut to the page unless duplicates are still to go. The leg of a compound
/// query leaves both to the whole.
pub open spec fn shown_docs<
    F: Fn(&Expr, &Document) -> Result<Value, EngineError>,
    G: Fn(&Value, &Value) -> Rank,
>(f: F, g: G, sel: Select, ms: Seq<Fields>, presorted: bool, finalize: bool) -> Result<
    Seq<Fields>,
    EngineError,
> {
    let sorted = if finalize && !presorted {
        sorted_docs(
            f,
            g,
            order_exprs(sel.order_by@),
            order_directions(sel.order_by@),
            ms,
            rows_wanted(sel),
        )
    } else {
        Ok(ms)
    };
    match sorted {
        Err(e) => Err(e),
        Ok(ds) => if finalize && !sel.distinct {
            Ok(page(ds, sel.offset, sel.limit))
        } else {
            Ok(ds)
        },
    }
}

/// The rows of a query that does not aggregate.
pub open spec fn selected<
    F: Fn(&Expr, &Document) -> Result<Value, EngineError>,
    G: Fn(&Value, &Value) -> Rank,
    K: Fn(&Vec<&Value>) -> Vec<u8>,
>(
    f: F,
    g: G,
    k: K,
    sel: Select,
    ms: Seq<Fields>,
    presorted: bool,
    hide: Set<Seq<char>>,
    finalize: bool,
) -> Result<ResultView, EngineError> {
    match shown_docs(f, g, sel, ms, presorted, finalize) {
        Err(e) => Err(e),
        Ok(ds) => {
            let fields = if wildcard(sel) {
                in_order(shown_fields(ds, hide))
            } else {
                Seq::empty()
            };
            match projected_rows(f, sel.items@, fields, ds) {
                Err(e) => Err(e),
                Ok(rows) => {
                    let unique = if sel.distinct {
                        deduped(k, rows)
                    } else {
                        rows
                    };
                    Ok(
                        ResultView {
                            columns: output_names(sel.items@, fields),
                            rows: if finalize && sel.distinct {
                                page(unique, sel.offset, sel.limit)
                            } else {
                                unique
                            },
                        },
                    )
                },
            }
        },
    }
}

proof fn lemma_page_map<A, B>(s: Seq<A>, fun: spec_fn(A) -> B, offset: Option<u64>, limit: Option<u64>)
    ensures
        page(s, offset, limit).map_values(fun) == page(s.map_values(fun), offset, limit),
{
    let rest = match offset {
        Some(off) => if off <= s.len() {
            s.skip(off as int)
        } else {
            Seq::empty()
        },
        None => s,
    };
    let mapped = match offset {
        Some(off) => if off <= s.len() {
            s.map_values(fun).skip(off as int)
        } else {
            Seq::empty()
        },
        None => s.map_values(fun),
    };
    assert(rest.map_values(fun) =~= mapped);
    if let Some(lim) = limit {
        assert(first_few(rest, lim as nat).map_values(fun) =~= first_few(mapped, lim as nat));
    }
}

proof fn lemma_page_from<A>(s: Seq<A>, offset: Option<u64>, limit: Option<u64>)
    ensures
        forall|i: int|
            0 <= i < page(s, offset, limit).len() ==> s.contains(
                #[trigger] page(s, offset, limit)[i],
            ),
{
    let rest = match offset {
        Some(off) => if off <= s.len() {
            s.skip(off as int)
        } else {
            Seq::empty()
        },
        None => s,
    };
    let p = page(s, offset, limit);
    assert forall|i: int| 0 <= i < p.len() implies s.contains(#[trigger] p[i]) by {
        assert(p[i] == rest[i]);
        let off = match offset {
            Some(o) => if o <= s.len() {
                o as int
            } else {
                0
            },
            None => 0,
        };
        assert(rest[i] == s[off + i]);
    }
}

/// The rows of a query that does not aggregate, over chosen documents.
pub fn select_rows<
    F: Fn(&Expr, &Document) -> Result<Value, EngineError>,
    G: Fn(&Value, &Value) -> Rank,
    K: Fn(&Vec<&Value>) -> Vec<u8>,
>(
    f: &F,
    g: &G,
    k: &K,
    sel: &Select,
    docs: &Vec<Document>,
    chosen: Vec<usize>,
    presorted: bool,
    hide: &NameSet,
    finalize: bool,
) -> (r: Result<ResultSet, EngineError>)
    requires
        is_evaluator(*f),
        is_ranking(*g),
        is_encoder(*k),
        docs_wf(docs@),
        in_docs(docs@, chosen@),
        hide.wf(),
    ensures
        match r {
            Ok(rs) => selected(
                *f,
                *g,
                *k,
                *sel,
                picked(docs@, chosen@),
                presorted,
                hide@,
                finalize,
            ) == Ok::<ResultView, EngineError>(rs@) && rows_wf(rs.rows@),
            Err(e) => selected(
                *f,
                *g,
                *k,
                *sel,
                picked(docs@, chosen@),
                presorted,
                hide@,
                finalize,
            ) == Err::<ResultView, EngineError>(e),
        },
{
    let mut shown = chosen;
    if finalize && !presorted {
        let (exprs, descending) = order_parts(&sel.order_by);
        shown = match sort_docs(f, g, &exprs, &descending, docs, shown, wanted_rows(sel)) {
            Err(e) => {
                return Err(e);
            },
            Ok(s) => s,
        };
    }
    if finalize && !sel.distinct {
        let ghost sorted = shown@;
        apply_offset_limit(&mut shown, sel.offset, sel.limit);
        proof {
            lemma_page_map(
                sorted,
                |p: usize| doc_view(docs@[p as int]),
                sel.offset,
                sel.limit,
            );
            lemma_page_from(sorted, sel.offset, sel.limit);
            assert forall|i: int| 0 <= i < shown@.len() implies (#[trigger] shown@[i])
                < docs@.len() by {
                assert(sorted.contains(shown@[i]));
                let j = choose|j: int| 0 <= j < sorted.len() && sorted[j] == shown@[i];
                assert(sorted[j] < docs@.len());
            }
        }
    }
    let fields = if has_wildcard(sel) {
        wildcard_fields(docs, &shown, hide)
    } else {
        Vec::new()
    };
    proof {
        if !wildcard(*sel) {
            assert(views(fields@) =~= Seq::<Seq<char>>::empty());
        }
    }
    let columns = output_columns(sel, &fields);
    let mut rows = match project_rows(f, &sel.items, &fields, docs, &shown) {
        Err(e) => {
            return Err(e);
        },
        Ok(rows) => rows,
    };
    if sel.distinct {
        dedup_rows(&mut rows, k);
    }
    if finalize && sel.distinct {
        page_rows(&mut rows, sel.offset, sel.limit);
    }
    Ok(ResultSet { columns, rows })
}

pub fn page_rows(rows: &mut Vec<Vec<Value>>, offset: Option<u64>, limit: Option<u64>)
    requires
        rows_wf(old(rows)@),
    ensures
        rows_wf(final(rows)@),
        rows_view(final(rows)@) == page(rows_view(old(rows)@), offset, limit),
{
    let ghost all = rows@;
    apply_offset_limit(rows, offset, limit);
    proof {
        lemma_page_map(all, |r: Vec<Value>| row_view(r@), offset, limit);
        lemma_page_from(all, offset, limit);
        assert forall|i: int| 0 <= i < rows@.len() implies row_wf((#[trigger] rows@[i])@) by {
            assert(all.contains(rows@[i]));
            let j = choose|j: int| 0 <= j < all.len() && all[j] == rows@[i];
            assert(row_wf(all[j]@));
        }
    }
}

/// A compound query's rows so far with one more leg: the rows one after the
/// other, without duplicates unless all are asked for; or the refusal of a leg
/// of another width.
pub open spec fn with_set_op<K: Fn(&Vec<&Value>) -> Vec<u8>>(
    k: K,
    rs: ResultView,
    leg: ResultView,
    all: bool,
) -> Result<ResultView, ErrorView> {
    if leg.columns.len() != rs.columns.len() {
        Err(
            ErrorView::Unsupported("UNION branches must have the same number of columns"@),
        )
    } else {
        let rows = rs.rows + leg.rows;
        Ok(
            ResultView {
                columns: rs.columns,
                rows: if all {
                    rows
                } else {
                    deduped(k, rows)
                },
            },
        )
    }
}

/// Adds a leg to a compound query's rows.
pub fn add_leg<K: Fn(&Vec<&Value>) -> Vec<u8>>(k: &K, rs: ResultSet, leg: ResultSet, all: bool) -> (r:
    Result<ResultSet, EngineError>)
    requires
        is_encoder(*k),
        rows_wf(rs.rows@),
        rows_wf(leg.rows@),
    ensures
        match r {
            Ok(out) => with_set_op(*k, rs@, leg@, all) == Ok::<ResultView, ErrorView>(out@)
                && rows_wf(out.rows@),
            Err(e) => with_set_op(*k, rs@, leg@, all) == Err::<ResultView, ErrorView>(e@),
        },
{
    proof {
        assert(rs@.columns.len() == rs.columns@.len());
        assert(leg@.columns.len() == leg.columns@.len());
    }
    if leg.columns.len() != rs.columns.len() {
        return Err(unsupported("UNION branches must have the same number of columns"));
    }
    let mut rows = rs.rows;
    let mut more = leg.rows;
    let ghost a = rows@;
    let ghost b = more@;
    rows.append(&mut more);
    proof {
        assert(rows@ =~= a + b);
        assert(rows_view(rows@) =~= rows_view(a) + rows_view(b));
    }
    if !all {
        dedup_rows(&mut rows, k);
    }
    Ok(ResultSet { columns: rs.columns, rows })
}

/// A document made of the first `n` output columns of a row.
pub open spec fn output_doc(columns: Seq<Seq<char>>, row: Seq<ValueView>, n: nat) -> Fields
    decreases n,
{
    if n == 0 {
        Map::empty()
    } else {
        output_doc(columns, row, (n - 1) as nat).insert(columns[n - 1], row[n - 1])
    }
}

/// The number of columns that a row has values for.
pub open spec fn width(columns: Seq<Seq<char>>, row: Seq<ValueView>) -> nat {
    if columns.len() < row.len() {
        columns.len()
    } else {
        row.len()
    }
}

fn output_document(columns: &Vec<String>, row: &Vec<Value>) -> (r: Document)
    requires
        row_wf(row@),
    ensures
        doc_wf(r),
        doc_view(r) == output_doc(
            views(columns@),
            row_view(row@),
            width(views(columns@), row_view(row@)),
        ),
{
    let ghost cs = views(columns@);
    let ghost vs = row_view(row@);
    let mut doc = Document::new();
    let mut i: usize = 0;
    while i < columns.len() && i < row.len()
        invariant
            row_wf(row@),
            cs == views(columns@),
            vs == row_view(row@),
            doc_wf(doc),
            i <= width(cs, vs),
            doc_view(doc) == output_doc(cs, vs, i as nat),
        decreases columns@.len() - i,
    {
        proof {
            assert(value_wf(row@[i as int]));
            assert(cs[i as int] == columns@[i as int]@);
            assert(vs[i as int] == value_view(row@[i as int]));
            assert(cs.len() == columns@.len());
            assert(vs.len() == row@.len());
        }
        doc.put_field(columns[i].clone(), copy_value(&row[i]));
        i = i + 1;
    }
    proof {
        assert(cs.len() == columns@.len());
        assert(vs.len() == row@.len());
    }
    doc
}

/// The rows of a compound query as documents of its output columns.
pub open spec fn output_docs(rs: ResultView) -> Seq<Fields> {
    rs.rows.map_values(
        |row: Seq<ValueView>| output_doc(rs.columns, row, width(rs.columns, row)),
    )
}

/// The rows of a result sorted by expressions over its output columns.
pub open spec fn sorted_output<
    F: Fn(&Expr, &Document) -> Result<Value, EngineError>,
    G: Fn(&Value, &Value) -> Rank,
>(f: F, g: G, order_by: Seq<OrderKey>, rs: ResultView) -> Result<
    Seq<Seq<ValueView>>,
    EngineError,
> {
    match key_tuples(f, order_exprs(order_by), output_docs(rs)) {
        Err(e) => Err(e),
        Ok(ks) => Ok(at_places(rs.rows, key_order(g, ks, order_directions(order_by), None))),
    }
}

/// The rows of a result sorted by expressions over its output columns.
fn sort_result_rows<
    F: Fn(&Expr, &Document) -> Result<Value, EngineError>,
    G: Fn(&Value, &Value) -> Rank,
>(f: &F, g: &G, order_by: &Vec<OrderKey>, columns: &Vec<String>, rows: Vec<Vec<Value>>) -> (r:
    Result<Vec<Vec<Value>>, EngineError>)
    requires
        is_evaluator(*f),
        is_ranking(*g),
        rows_wf(rows@),
    ensures
        match r {
            Ok(out) => sorted_output(
                *f,
                *g,
                order_by@,
                (ResultView { columns: views(columns@), rows: rows_view(rows@) }),
            ) == Ok::<Seq<Seq<ValueView>>, EngineError>(rows_view(out@)) && rows_wf(out@),
            Err(e) => sorted_output(
                *f,
                *g,
                order_by@,
                (ResultView { columns: views(columns@), rows: rows_view(rows@) }),
            ) == Err::<Seq<Seq<ValueView>>, EngineError>(e),
        },
{
    let ghost rs = ResultView { columns: views(columns@), rows: rows_view(rows@) };
    let ghost ms = output_docs(rs);
    let (exprs, descending) = order_parts(order_by);
    let mut keys: Vec<Vec<Value>> = Vec::new();
    let mut i: usize = 0;
    proof {
        assert(ms.take(0) =~= Seq::<Fields>::empty());
        assert(tuples(keys@) =~= Seq::<Seq<Value>>::empty());
    }
    while i < rows.len()
        invariant
            is_evaluator(*f),
            rows_wf(rows@),
            rs == (ResultView { columns: views(columns@), rows: rows_view(rows@) }),
            ms == output_docs(rs),
            exprs_of(exprs@) == order_exprs(order_by@),
            i <= rows@.len(),
            key_tuples(*f, exprs_of(exprs@), ms.take(i as int)) == Ok::<Seq<Seq<Value>>, EngineError>(
                tuples(keys@),
            ),
        decreases rows@.len() - i,
    {
        let ghost before = tuples(keys@);
        proof {
            assert(row_wf(rows@[i as int]@));
            assert(rs.rows[i as int] == row_view(rows@[i as int]@));
        }
        let doc = output_document(columns, &rows[i]);
        proof {
            assert(ms.take(i + 1).drop_last() =~= ms.take(i as int));
            assert(ms.take(i + 1).last() == doc_view(doc));
        }
        match sort_key(f, &exprs, &doc) {
            Err(e) => {
                proof {
                    lemma_key_tuples(*f, exprs_of(exprs@), ms, i + 1);
                }
                return Err(e);
            },
            Ok(k) => {
                let ghost kv = k@;
                keys.push(k);
                proof {
                    assert(tuples(keys@) =~= before.push(kv));
                }
            },
        }
        i = i + 1;
    }
    proof {
        assert(ms.take(ms.len() as int) =~= ms);
        lemma_key_tuples_len(*f, exprs_of(exprs@), ms);
        assert(tuples(keys@).len() == keys@.len());
    }
    let ps = order_by_keys(g, &keys, &descending, None);
    Ok(rows_at(rows, &ps))
}

/// Copies of rows at places.
pub fn rows_at(rows: Vec<Vec<Value>>, ps: &Vec<usize>) -> (r: Vec<Vec<Value>>)
    requires
        rows_wf(rows@),
        forall|i: int| 0 <= i < ps@.len() ==> (#[trigger] ps@[i]) < rows@.len(),
    ensures
        rows_wf(r@),
        rows_view(r@) == at_places(rows_view(rows@), as_places(ps@)),
{
    let mut out: Vec<Vec<Value>> = Vec::new();
    let mut j: usize = 0;
    while j < ps.len()
        invariant
            rows_wf(rows@),
            forall|i: int| 0 <= i < ps@.len() ==> (#[trigger] ps@[i]) < rows@.len(),
            j <= ps@.len(),
            out@.len() == j,
            rows_wf(out@),
            forall|i: int|
                0 <= i < j ==> row_view((#[trigger] out@[i])@) == row_view(
                    rows@[ps@[i] as int]@,
                ),
        decreases ps@.len() - j,
    {
        proof {
            assert(row_wf(rows@[ps@[j as int] as int]@));
        }
        out.push(copy_row(&rows[ps[j]]));
        j = j + 1;
    }
    proof {
        assert(rows_view(out@) =~= at_places(rows_view(rows@), as_places(ps@)));
    }
    out
}

fn copy_row(row: &Vec<Value>) -> (r: Vec<Value>)
    requires
        row_wf(row@),
    ensures
        row_wf(r@),
        row_view(r@) == row_view(row@),
{
    let mut out: Vec<Value> = Vec::new();
    let mut i: usize = 0;
    while i < row.len()
        invariant
            row_wf(row@),
            row_wf(out@),
            i <= row@.len(),
            out@.len() == i,
            forall|k: int| 0 <= k < i ==> value_view(#[trigger] out@[k]) == value_view(row@[k]),
        decreases row@.len() - i,
    {
        proof {
            assert(value_wf(row@[i as int]));
        }
        out.push(copy_value(&row[i]));
        i = i + 1;
    }
    proof {
        assert(row_view(out@) =~= row_view(row@));
    }
    out
}

/// A compound query's combined rows with the whole query's `DISTINCT`,
/// `ORDER BY` over the output columns, and page applied.
pub open spec fn finalized<
    F: Fn(&Expr, &Document) -> Result<Value, EngineError>,
    G: Fn(&Value, &Value) -> Rank,
    K: Fn(&Vec<&Value>) -> Vec<u8>,
>(f: F, g: G, k: K, sel: Select, rs: ResultView) -> Result<ResultView, EngineError> {
    let unique = ResultView {
        columns: rs.columns,
        rows: if sel.distinct {
            deduped(k, rs.rows)
        } else {
            rs.rows
        },
    };
    let sorted = if sel.order_by@.len() > 0 {
        sorted_output(f, g, sel.order_by@, unique)
    } else {
        Ok(unique.rows)
    };
    match sorted {
        Err(e) => Err(e),
        Ok(rows) => Ok(
            ResultView { columns: rs.columns, rows: page(rows, sel.offset, sel.limit) },
        ),
    }
}

/// Finishes a compound query.
pub fn finalize_compound<
    F: Fn(&Expr, &Document) -> Result<Value, EngineError>,
    G: Fn(&Value, &Value) -> Rank,
    K: Fn(&Vec<&Value>) -> Vec<u8>,
>(f: &F, g: &G, k: &K, sel: &Select, rs: ResultSet) -> (r: Result<ResultSet, EngineError>)
    requires
        is_evaluator(*f),
        is_ranking(*g),
        is_encoder(*k),
        rows_wf(rs.rows@),
    ensures
        match r {
            Ok(out) => finalized(*f, *g, *k, *sel, rs@) == Ok::<ResultView, EngineError>(out@)
                && rows_wf(out.rows@),
            Err(e) => finalized(*f, *g, *k, *sel, rs@) == Err::<ResultView, EngineError>(e),
        },
{
    let columns = rs.columns;
    let mut rows = rs.rows;
    if sel.distinct {
        dedup_rows(&mut rows, k);
    }
    if sel.order_by.len() > 0 {
        rows = match sort_result_rows(f, g, &sel.order_by, &columns, rows) {
            Err(e) => {
                return Err(e);
            },
            Ok(rows) => rows,
        };
    }
    page_rows(&mut rows, sel.offset, sel.limit);
    Ok(ResultSet { columns, rows })
}

} // verus!
