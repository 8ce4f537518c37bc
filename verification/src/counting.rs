//! Counts and distinct values that are answered without gathering rows.

use vstd::prelude::*;

use crate::aggregate::single_rows;
use crate::ast::Select;
use crate::bytes::copy_bytes;
use crate::error::EngineError;
use crate::error::ErrorView;
use crate::execute::encode_tuple;
use crate::execute::encoding;
use crate::execute::is_encoder;
use crate::execute::row_view;
use crate::execute::row_wf;
use crate::execute::tuple_view;
use crate::model::value_view;
use crate::model::value_wf;
use crate::model::ValueView;
use crate::order::first_few;
use crate::order::page;
use crate::point_keys::key_views;
use crate::point_keys::keys_ascend;
use crate::results::page_rows;
use crate::results::rows_view;
use crate::results::rows_wf;
use crate::results::ResultSet;
use crate::results::ResultView;
use crate::select_plan::output_columns;
use crate::select_plan::output_names;
use crate::sorted_map::lemma_entry_at;
use crate::sorted_map::SortKey;
use crate::sorted_map::SortedMap;
use crate::text::views;
use crate::value::Value;

verus! {

/// Whether storage statistics and index entries count what a query sees: not
/// while a transaction is open, whose writes they do not hold, and not on a
/// table whose rows expire, for expired rows are still in them.
pub fn counts_are_exact(table: &str, txn_open: bool, has_table: bool, has_ttl: bool) -> (r: Result<
    bool,
    EngineError,
>)
    ensures
        match r {
            Ok(b) => (txn_open || has_table) && b == (!txn_open && !has_ttl),
            Err(e) => !txn_open && !has_table && e@ == ErrorView::TableNotFound(table@),
        },
{
    if txn_open {
        return Ok(false);
    }
    if !has_table {
        return Err(EngineError::TableNotFound(table.to_owned()));
    }
    Ok(!has_ttl)
}

/// The result of a lone `COUNT(*)` that was counted: one row, cut to the page.
pub fn count_result(sel: &Select, n: usize) -> (r: ResultSet)
    ensures
        r@ == (ResultView {
            columns: output_names(sel.items@, Seq::empty()),
            rows: page(seq![seq![ValueView::Int(n as i64)]], sel.offset, sel.limit),
        }),
        rows_wf(r.rows@),
{
    let mut row: Vec<Value> = Vec::new();
    row.push(Value::Int(n as i64));
    proof {
        assert(row_view(row@) =~= seq![ValueView::Int(n as i64)]);
        assert(row_wf(row@));
    }
    let mut rows: Vec<Vec<Value>> = Vec::new();
    rows.push(row);
    proof {
        assert(rows_view(rows@) =~= seq![seq![ValueView::Int(n as i64)]]);
    }
    page_rows(&mut rows, sel.offset, sel.limit);
    let none: Vec<String> = Vec::new();
    proof {
        assert(views(none@) =~= Seq::<Seq<char>>::empty());
    }
    let columns = output_columns(sel, &none);
    ResultSet { columns, rows }
}

/// The result of `SELECT DISTINCT <column>` whose values were collected: a row
/// for each, cut to the page.
pub fn distinct_result(sel: &Select, values: Vec<Value>) -> (r: ResultSet)
    requires
        row_wf(values@),
    ensures
        r@ == (ResultView {
            columns: output_names(sel.items@, Seq::empty()),
            rows: page(single_rows(values@), sel.offset, sel.limit),
        }),
        rows_wf(r.rows@),
{
    let ghost all = values@;
    let rest = values;
    let mut rows: Vec<Vec<Value>> = Vec::new();
    for v in it: rest
        invariant
            all == values@,
            row_wf(all),
            it.seq() == all,
            rows@.len() == it.index(),
            forall|i: int| 0 <= i < it.index() ==> (#[trigger] rows@[i])@ == seq![all[i]],
    {
        let ghost done = it.index() as int;
        proof {
            assert(v == all[done]);
        }
        let mut row: Vec<Value> = Vec::new();
        row.push(v);
        proof {
            assert(row@ =~= seq![all[done]]);
        }
        rows.push(row);
    }
    proof {
        assert forall|i: int| 0 <= i < rows@.len() implies row_wf((#[trigger] rows@[i])@) by {
            assert(rows@[i]@ == seq![all[i]]);
            assert(value_wf(all[i]));
        }
        assert forall|i: int| 0 <= i < rows@.len() implies #[trigger] rows_view(rows@)[i]
            == single_rows(all)[i] by {
            assert(rows@[i]@ == seq![all[i]]);
            assert(row_view(rows@[i]@) =~= seq![value_view(all[i])]);
        }
        assert(rows_view(rows@) =~= single_rows(all));
    }
    page_rows(&mut rows, sel.offset, sel.limit);
    let none: Vec<String> = Vec::new();
    proof {
        assert(views(none@) =~= Seq::<Seq<char>>::empty());
    }
    let columns = output_columns(sel, &none);
    ResultSet { columns, rows }
}

/// The values that are not `NULL` by their encoding, the first of each.
pub open spec fn first_of_each<K: Fn(&Vec<&Value>) -> Vec<u8>>(k: K, vs: Seq<Value>) -> Map<
    Seq<u8>,
    Value,
>
    decreases vs.len(),
{
    if vs.len() == 0 {
        Map::empty()
    } else {
        let m = first_of_each(k, vs.drop_last());
        let key = encoding(k, seq![value_view(vs.last())]);
        if vs.last() is Null || m.dom().contains(key) {
            m
        } else {
            m.insert(key, vs.last())
        }
    }
}

/// Whether values are those of a map in the order of their keys.
pub open spec fn in_key_order(vs: Seq<Value>, m: Map<Seq<u8>, Value>) -> bool {
    exists|ks: Seq<Seq<u8>>| #[trigger]
        keys_ascend(ks) && ks.len() == vs.len() && (forall|k: Seq<u8>| #[trigger]
            ks.contains(k) <==> m.dom().contains(k)) && forall|i: int|
            0 <= i < vs.len() ==> #[trigger] vs[i] == m[ks[i]]
}

/// Notes a value by its encoding, unless it is `NULL` or one of that encoding
/// was noted before.
pub(crate) fn note_value<K: Fn(&Vec<&Value>) -> Vec<u8>>(
    found: &mut SortedMap<Vec<u8>, Value>,
    k: &K,
    v: Value,
)
    requires
        is_encoder(*k),
        old(found).wf(),
    ensures
        final(found).wf(),
        final(found)@ == ({
            let key = encoding(*k, seq![value_view(v)]);
            if v is Null || old(found)@.dom().contains(key) {
                old(found)@
            } else {
                old(found)@.insert(key, v)
            }
        }),
{
    if !v.is_null() {
        let mut one: Vec<&Value> = Vec::new();
        one.push(&v);
        proof {
            assert(tuple_view(one@) =~= seq![value_view(v)]);
        }
        let key = encode_tuple(k, &one);
        if !found.contains(&key) {
            found.insert(key, v);
        }
    }
}

/// The distinct values of a column that are not `NULL`, in the order of their
/// encoding.
pub fn distinct_values<K: Fn(&Vec<&Value>) -> Vec<u8>>(k: &K, values: Vec<Value>) -> (r: Vec<Value>)
    requires
        is_encoder(*k),
    ensures
        in_key_order(r@, first_of_each(*k, values@)),
{
    let ghost all = values@;
    let rest = values;
    let mut found: SortedMap<Vec<u8>, Value> = SortedMap::new();
    proof {
        assert(all.take(0) =~= Seq::<Value>::empty());
    }
    for v in it: rest
        invariant
            is_encoder(*k),
            all == values@,
            found.wf(),
            it.seq() == all,
            found@ == first_of_each(*k, all.take(it.index() as int)),
    {
        let ghost done = it.index() as int;
        proof {
            assert(v == all[done]);
            assert(all.take(done + 1).drop_last() =~= all.take(done));
            assert(all.take(done + 1).last() == v);
        }
        note_value(&mut found, k, v);
    }
    proof {
        assert(all.take(all.len() as int) =~= all);
    }
    values_in_order(found)
}

pub(crate) fn values_in_order(m: SortedMap<Vec<u8>, Value>) -> (r: Vec<Value>)
    requires
        m.wf(),
    ensures
        in_key_order(r@, m@),
{
    let ghost es = m.entries@;
    let rest = m.entries;
    let mut out: Vec<Value> = Vec::new();
    for entry in it: rest
        invariant
            es == m.entries@,
            it.seq() == es,
            out@.len() == it.index(),
            forall|i: int| 0 <= i < it.index() ==> (#[trigger] out@[i]) == es[i].1,
    {
        let ghost done = it.index() as int;
        let (_, v) = entry;
        proof {
            assert(v == es[done].1);
        }
        out.push(v);
    }
    proof {
        let ks = es.map_values(|e: (Vec<u8>, Value)| e.0@);
        assert forall|a: int, b: int| 0 <= a < b < ks.len() implies crate::bytes::bytes_lt(
            #[trigger] ks[a],
            #[trigger] ks[b],
        ) by {
            assert(<Vec<u8> as SortKey>::below(es[a].0.model(), es[b].0.model()));
        }
        assert forall|k: Seq<u8>| #[trigger] ks.contains(k) <==> m@.dom().contains(k) by {
            if ks.contains(k) {
                let p = choose|p: int| 0 <= p < ks.len() && ks[p] == k;
                lemma_entry_at(es, p);
            }
            if m@.dom().contains(k) {
                let p = crate::sorted_map::place_of(es, k);
                assert(ks[p] == k);
            }
        }
        assert forall|i: int| 0 <= i < out@.len() implies #[trigger] out@[i] == m@[ks[i]] by {
            lemma_entry_at(es, i);
        }
        assert(keys_ascend(ks));
    }
    out
}

/// The candidates that a shard hands to an ordered read: its first `fetch`
/// rows' keys, where an index walked them in the order asked for, and nothing
/// where none did or a transaction is open.
pub fn sorted_candidates(txn_open: bool, sorted: bool, keys: &Vec<Vec<u8>>, fetch: usize) -> (r:
    Option<Vec<Vec<u8>>>)
    ensures
        r is Some <==> !txn_open && sorted,
        r matches Some(ks) ==> key_views(ks@) == first_few(key_views(keys@), fetch as nat),
{
    if txn_open || !sorted {
        return None;
    }
    let n: usize = if fetch < keys.len() {
        fetch
    } else {
        keys.len()
    };
    let mut out: Vec<Vec<u8>> = Vec::new();
    let mut i: usize = 0;
    while i < n
        invariant
            n <= keys@.len(),
            i <= n,
            out@.len() == i,
            forall|k: int| 0 <= k < i ==> (#[trigger] out@[k])@ == keys@[k]@,
        decreases n - i,
    {
        out.push(copy_bytes(keys[i].as_slice()));
        i = i + 1;
    }
    proof {
        assert(key_views(out@) =~= first_few(key_views(keys@), fetch as nat));
    }
    Some(out)
}

} // verus!
