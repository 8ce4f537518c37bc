//! The bytes of index entries, and the byte ranges that scans of them read.

use vstd::prelude::*;

use crate::bytes::byte_prefix;
use crate::bytes::bytes_lt;
use crate::bytes::copy_bytes;
use crate::bytes::prefix_range_is_exact;
use crate::bytes::prefix_upper_bound;
use crate::bytes::upper_bound;
use crate::execute::encode_tuple;
use crate::execute::encoding;
use crate::execute::is_encoder;
use crate::execute::tuple_view;
use crate::model::ValueView;
use crate::plan::extended;
use crate::plan::tuple;
use crate::plan::Cover;
use crate::plan::IndexPlan;
use crate::value::Value;

verus! {

/// The entry of a row whose values at an index's paths are these: their tuple
/// with the row's key behind them, encoded.
pub fn index_entry_key<K: Fn(&Vec<&Value>) -> Vec<u8>>(
    k: &K,
    values: &Vec<&Value>,
    row_key: &[u8],
) -> (r: Vec<u8>)
    requires
        is_encoder(*k),
    ensures
        r@ == encoding(*k, tuple_view(values@).push(ValueView::Bytes(row_key@))),
{
    let key = Value::Bytes(copy_bytes(row_key));
    let all = extended(values, &key);
    proof {
        let want = tuple_view(values@).push(ValueView::Bytes(row_key@));
        assert(tuple(all@).len() == all@.len());
        assert forall|i: int| 0 <= i < all@.len() implies #[trigger] tuple_view(all@)[i] == want[i] by {
            assert(tuple(all@)[i] == *all@[i]);
            if i < values@.len() {
                assert(tuple(values@)[i] == *values@[i]);
            }
        }
        assert(tuple_view(all@) =~= want);
    }
    encode_tuple(k, &all)
}

/// What every entry whose leading values are these begins with: their encoding
/// without the byte that ends a tuple.
pub open spec fn tuple_prefix<K: Fn(&Vec<&Value>) -> Vec<u8>>(k: K, vs: Seq<ValueView>) -> Seq<u8> {
    let whole = encoding(k, vs);
    if whole.len() == 0 {
        whole
    } else {
        whole.drop_last()
    }
}

/// What every entry whose leading values are these begins with.
pub fn index_prefix_n<K: Fn(&Vec<&Value>) -> Vec<u8>>(k: &K, values: &Vec<&Value>) -> (r: Vec<u8>)
    requires
        is_encoder(*k),
    ensures
        r@ == tuple_prefix(*k, tuple_view(values@)),
{
    let mut key = encode_tuple(k, values);
    if key.len() > 0 {
        key.pop();
    }
    key
}

/// The first key behind every entry whose leading values are these; nothing
/// where there is none.
pub fn index_upper_bound_n<K: Fn(&Vec<&Value>) -> Vec<u8>>(k: &K, values: &Vec<&Value>) -> (r: Option<
    Vec<u8>,
>)
    requires
        is_encoder(*k),
    ensures
        match r {
            Some(b) => upper_bound(tuple_prefix(*k, tuple_view(values@))) == Some(b@),
            None => upper_bound(tuple_prefix(*k, tuple_view(values@))) is None,
        },
{
    let prefix = index_prefix_n(k, values);
    prefix_upper_bound(prefix.as_slice())
}

/// An optional key by its bytes.
pub open spec fn edge(b: Option<Vec<u8>>) -> Option<Seq<u8>> {
    match b {
        Some(b) => Some(b@),
        None => None,
    }
}

/// The byte range `[start, end)` that an index plan reads, an end that is not
/// there being open.
pub fn scan_range<K: Fn(&Vec<&Value>) -> Vec<u8>>(k: &K, plan: &IndexPlan<'_>) -> (r: (
    Option<Vec<u8>>,
    Option<Vec<u8>>,
))
    requires
        is_encoder(*k),
    ensures
        edge(r.0) == (match plan.scan.start {
            Some(t) => Some(tuple_prefix(*k, tuple_view(t@))),
            None => None,
        }),
        edge(r.1) == (match plan.scan.end {
            Some(t) => upper_bound(tuple_prefix(*k, tuple_view(t@))),
            None => None,
        }),
{
    let start = match &plan.scan.start {
        Some(t) => Some(index_prefix_n(k, t)),
        None => None,
    };
    let end = match &plan.scan.end {
        Some(t) => index_upper_bound_n(k, t),
        None => None,
    };
    (start, end)
}

/// The byte range `[start, end)` whose entries a covered count counts: without
/// the entries of a bound that is left out. Nothing where no entry can be
/// behind its start.
pub fn cover_range<K: Fn(&Vec<&Value>) -> Vec<u8>>(k: &K, cover: &Cover<'_>) -> (r: Option<
    (Vec<u8>, Option<Vec<u8>>),
>)
    requires
        is_encoder(*k),
    ensures
        ({
            let first = tuple_prefix(*k, tuple_view(cover.start@));
            let last = tuple_prefix(*k, tuple_view(cover.end@));
            let start = if cover.skip_start {
                upper_bound(first)
            } else {
                Some(first)
            };
            let end = if cover.skip_end {
                Some(last)
            } else {
                upper_bound(last)
            };
            match r {
                Some((s, e)) => start == Some(s@) && edge(e) == end,
                None => start is None,
            }
        }),
{
    let start = if cover.skip_start {
        match index_upper_bound_n(k, &cover.start) {
            Some(b) => b,
            None => {
                return None;
            },
        }
    } else {
        index_prefix_n(k, &cover.start)
    };
    let end = if cover.skip_end {
        Some(index_prefix_n(k, &cover.end))
    } else {
        index_upper_bound_n(k, &cover.end)
    };
    Some((start, end))
}

/// Whether an encoder writes a longer tuple over a shorter one: but for the
/// byte that ends it, the encoding of a tuple begins that of every tuple that
/// goes on behind it.
pub open spec fn writes_tuples_through<K: Fn(&Vec<&Value>) -> Vec<u8>>(k: K) -> bool {
    forall|vs: Seq<ValueView>, more: Seq<ValueView>|
        byte_prefix(#[trigger] encoding(k, vs + more), tuple_prefix(k, vs))
}

/// A range over leading values holds every entry that has them: the entry of a
/// row whose values begin with `vs` lies at or behind the prefix of `vs` and
/// before its upper bound.
pub proof fn entries_lie_in_their_range<K: Fn(&Vec<&Value>) -> Vec<u8>>(
    k: K,
    vs: Seq<ValueView>,
    more: Seq<ValueView>,
    row_key: Seq<u8>,
)
    requires
        writes_tuples_through(k),
    ensures
        ({
            let entry = encoding(k, (vs + more).push(ValueView::Bytes(row_key)));
            let prefix = tuple_prefix(k, vs);
            !bytes_lt(entry, prefix) && (upper_bound(prefix) matches Some(end) ==> bytes_lt(
                entry,
                end,
            ))
        }),
{
    let rest = more.push(ValueView::Bytes(row_key));
    assert((vs + more).push(ValueView::Bytes(row_key)) =~= vs + rest);
    let entry = encoding(k, vs + rest);
    assert(byte_prefix(entry, tuple_prefix(k, vs)));
    prefix_range_is_exact(tuple_prefix(k, vs), entry);
}

} // verus!
