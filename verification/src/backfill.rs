//! Work that goes over a table in pages: index backfills, and the repair of
//! global index entries.

use vstd::prelude::*;

use crate::bytes::bytes_lt;
use crate::bytes::copy_bytes;
use crate::bytes::lemma_bytes_lt_irrefl;
use crate::bytes::lemma_bytes_lt_trans;
use crate::bytes::same_bytes;
use crate::catalog::CatalogView;
use crate::catalog::GeoIndexView;
use crate::catalog::IndexView;
use crate::database::Database;
use crate::database::DbView;
use crate::ddl_index::awaits_global_backfill;
use crate::ddl_index::settled_index;
use crate::ddl_table::stamped;
use crate::error::EngineError;
use crate::gidx::entry_key;
use crate::gidx::gidx_entry_key;
use crate::gidx::gidx_entry_row_key;
use crate::gidx::header_len;
use crate::gidx::is_entry_key;
use crate::hits::is_row_reader;
use crate::hits::row_of;
use crate::hlc::hlc_max;
use crate::hlc::Hlc;
use crate::local::present_of;
use crate::local::sift_keys;
use crate::maintenance::entry_keys;
use crate::maintenance::is_entry_function;
use crate::maintenance::key_ops;
use crate::maintenance::key_views;
use crate::maintenance::op_views;
use crate::maintenance::IndexOp;
use crate::maintenance::OpView;
use crate::point_keys::global_entry_delta;
use crate::point_keys::sorted_missing;
use crate::recovery::replays;
use crate::recovery::row_versions;
use crate::recovery::CatchUp;
use crate::recovery::RowVersion;
use crate::recovery::VersionedRow;

verus! {

/// Rows that a page of an inline backfill holds.
pub const BACKFILL_PAGE: usize = 4096;

/// Where the next page starts, behind the last row of a full page; nothing
/// where the page was short and the table is at its end.
pub open spec fn next_cursor(rows: Seq<RowVersion>, limit: nat) -> Option<Seq<u8>> {
    if rows.len() < limit || rows.len() == 0 {
        None
    } else {
        Some(rows.last().key)
    }
}

/// An optional key by its bytes.
pub open spec fn opt_key(k: Option<Vec<u8>>) -> Option<Seq<u8>> {
    match k {
        Some(b) => Some(b@),
        None => None,
    }
}

/// Where the page after `rows` starts, a page being up to `limit` rows.
pub fn page_cursor(rows: &Vec<VersionedRow>, limit: usize) -> (r: Option<Vec<u8>>)
    ensures
        opt_key(r) == next_cursor(row_versions(rows@), limit as nat),
{
    let n: usize = rows.len();
    proof {
        assert(row_versions(rows@).len() == n);
    }
    if n < limit || n == 0 {
        return None;
    }
    proof {
        assert(row_versions(rows@)[n - 1] == rows@[n - 1]@);
    }
    Some(copy_bytes(rows[n - 1].key.as_slice()))
}

/// Whether rows ascend by key.
pub open spec fn keys_ascend(rows: Seq<RowVersion>) -> bool {
    forall|i: int, j: int|
        0 <= i < j < rows.len() ==> bytes_lt((#[trigger] rows[i]).key, (#[trigger] rows[j]).key)
}

/// Whether a row lies behind a cursor.
pub open spec fn behind_cursor(cursor: Option<Seq<u8>>, key: Seq<u8>) -> bool {
    match cursor {
        Some(c) => bytes_lt(c, key),
        None => true,
    }
}

/// The page of a table's rows behind a cursor.
pub open spec fn page_of(rows: Seq<RowVersion>, cursor: Option<Seq<u8>>, limit: nat) -> Seq<
    RowVersion,
> {
    let rest = rows.filter(|r: RowVersion| behind_cursor(cursor, r.key));
    if rest.len() <= limit {
        rest
    } else {
        rest.take(limit as int)
    }
}

/// The rows that the first `fuel` pages behind a cursor go over.
pub open spec fn walked(rows: Seq<RowVersion>, cursor: Option<Seq<u8>>, limit: nat, fuel: nat) -> Seq<
    RowVersion,
>
    decreases fuel,
{
    if fuel == 0 {
        Seq::empty()
    } else {
        let page = page_of(rows, cursor, limit);
        match next_cursor(page, limit) {
            None => page,
            Some(c) => page + walked(rows, Some(c), limit, (fuel - 1) as nat),
        }
    }
}

proof fn lemma_suffix_behind(rows: Seq<RowVersion>, k: int)
    requires
        keys_ascend(rows),
        0 <= k <= rows.len(),
    ensures
        k > 0 ==> rows.filter(
            |r: RowVersion| behind_cursor(Some(rows[k - 1].key), r.key),
        ) == rows.skip(k),
        rows.filter(|r: RowVersion| behind_cursor(None, r.key)) == rows,
{
    let all = |r: RowVersion| behind_cursor(None, r.key);
    lemma_filter_run(rows, all, 0);
    assert(rows.skip(0) =~= rows);
    if k > 0 {
        let p = |r: RowVersion| behind_cursor(Some(rows[k - 1].key), r.key);
        assert forall|i: int| 0 <= i < rows.len() implies (#[trigger] p(rows[i]) <==> i >= k) by {
            lemma_bytes_lt_irrefl(rows[k - 1].key);
            if i < k - 1 {
                assert(bytes_lt(rows[i].key, rows[k - 1].key));
                if bytes_lt(rows[k - 1].key, rows[i].key) {
                    lemma_bytes_lt_trans(rows[k - 1].key, rows[i].key, rows[k - 1].key);
                }
            } else if i > k - 1 {
                assert(bytes_lt(rows[k - 1].key, rows[i].key));
            }
        }
        lemma_filter_run(rows, p, k);
    }
}

proof fn lemma_filter_run(rows: Seq<RowVersion>, p: spec_fn(RowVersion) -> bool, k: int)
    requires
        0 <= k <= rows.len(),
        forall|i: int| 0 <= i < rows.len() ==> (#[trigger] p(rows[i]) <==> i >= k),
    ensures
        rows.filter(p) == rows.skip(k),
    decreases rows.len(),
{
    reveal(Seq::filter);
    if rows.len() == 0 {
        assert(rows.filter(p) =~= rows.skip(k));
    } else {
        let init = rows.drop_last();
        assert forall|i: int| 0 <= i < init.len() implies (#[trigger] p(init[i]) <==> i >= k) by {
            assert(init[i] == rows[i]);
        }
        assert(rows.last() == rows[rows.len() - 1]);
        assert(p(rows[rows.len() - 1]) <==> rows.len() - 1 >= k);
        if k == rows.len() {
            lemma_filter_run(init, p, k - 1);
            assert(init.skip(k - 1) =~= rows.skip(k));
        } else {
            lemma_filter_run(init, p, k);
            assert(init.skip(k).push(rows.last()) =~= rows.skip(k));
        }
    }
}

proof fn lemma_walk_from(rows: Seq<RowVersion>, k: int, limit: nat, fuel: nat)
    requires
        keys_ascend(rows),
        0 <= k <= rows.len(),
        limit > 0,
        fuel > rows.len() - k,
    ensures
        walked(
            rows,
            if k == 0 {
                None
            } else {
                Some(rows[k - 1].key)
            },
            limit,
            fuel,
        ) == rows.skip(k),
    decreases fuel,
{
    let cursor = if k == 0 {
        None
    } else {
        Some(rows[k - 1].key)
    };
    lemma_suffix_behind(rows, k);
    let rest = rows.skip(k);
    if k == 0 {
        assert(rest =~= rows);
    }
    let page = page_of(rows, cursor, limit);
    if rest.len() <= limit {
        assert(page == rest);
        if rest.len() == limit {
            let c = page.last().key;
            assert(page.last() == rows[rows.len() - 1]);
            lemma_walk_from(rows, rows.len() as int, limit, (fuel - 1) as nat);
            assert(page + rows.skip(rows.len() as int) =~= rest);
        }
    } else {
        assert(page == rest.take(limit as int));
        assert(page.last() == rows[k + limit - 1]);
        lemma_walk_from(rows, k + limit, limit, (fuel - 1) as nat);
        assert(page + rows.skip(k + limit) =~= rest);
    }
}

/// The pages of a table go over every row exactly once, in key order.
pub proof fn pages_reach_every_row(rows: Seq<RowVersion>, limit: nat)
    requires
        keys_ascend(rows),
        limit > 0,
    ensures
        walked(rows, None, limit, rows.len() + 1) == rows,
{
    lemma_walk_from(rows, 0, limit, rows.len() + 1);
    assert(rows.skip(0) =~= rows);
}

/// The document that a decoder gives a payload.
pub open spec fn doc_of<D, F: Fn(&Vec<u8>) -> Option<D>>(decode: F, bytes: Vec<u8>) -> Option<D> {
    choose|d: Option<D>| call_ensures(decode, (&bytes,), d)
}

/// Whether a decoder can be asked of every payload and always gives the same.
pub open spec fn is_decoder<D, F: Fn(&Vec<u8>) -> Option<D>>(decode: F) -> bool {
    &&& forall|b: &Vec<u8>| call_requires(decode, (b,))
    &&& forall|b: &Vec<u8>, x: Option<D>, y: Option<D>|
        call_ensures(decode, (b,), x) && call_ensures(decode, (b,), y) ==> x == y
}

/// The entries of a run of rows under one index: those of each live row that
/// decodes to a document.
pub open spec fn fill_ops<
    D,
    F: Fn(&Vec<u8>) -> Option<D>,
    E: Fn(&Vec<String>, &Vec<u8>, &D) -> Vec<Vec<u8>>,
>(
    index: Seq<char>,
    paths: Vec<String>,
    rows: Seq<VersionedRow>,
    decode: F,
    entries: E,
) -> Seq<OpView>
    decreases rows.len(),
{
    if rows.len() == 0 {
        Seq::empty()
    } else {
        let before = fill_ops(index, paths, rows.drop_last(), decode, entries);
        match rows.last().value {
            None => before,
            Some(b) => match doc_of(decode, b) {
                None => before,
                Some(d) => before + key_ops(
                    index,
                    rows.last().key@,
                    entry_keys(entries, rows.last().key, paths, d),
                    true,
                ),
            },
        }
    }
}

/// Filling page by page fills what one pass over the rows would: the entries
/// of two runs of rows are those of the runs one after the other.
pub proof fn pages_fill_what_one_pass_would<
    D,
    F: Fn(&Vec<u8>) -> Option<D>,
    E: Fn(&Vec<String>, &Vec<u8>, &D) -> Vec<Vec<u8>>,
>(
    index: Seq<char>,
    paths: Vec<String>,
    first: Seq<VersionedRow>,
    rest: Seq<VersionedRow>,
    decode: F,
    entries: E,
)
    ensures
        fill_ops(index, paths, first + rest, decode, entries) == fill_ops(
            index,
            paths,
            first,
            decode,
            entries,
        ) + fill_ops(index, paths, rest, decode, entries),
    decreases rest.len(),
{
    let a = fill_ops(index, paths, first, decode, entries);
    if rest.len() == 0 {
        assert(first + rest =~= first);
        assert(a + Seq::<OpView>::empty() =~= a);
    } else {
        let before = rest.drop_last();
        pages_fill_what_one_pass_would(index, paths, first, before, decode, entries);
        assert((first + rest).drop_last() =~= first + before);
        assert((first + rest).last() == rest.last());
        let b = fill_ops(index, paths, before, decode, entries);
        match rest.last().value {
            None => {},
            Some(v) => match doc_of(decode, v) {
                None => {},
                Some(d) => {
                    let ops = key_ops(
                        index,
                        rest.last().key@,
                        entry_keys(entries, rest.last().key, paths, d),
                        true,
                    );
                    assert((a + b) + ops =~= a + (b + ops));
                },
            },
        }
    }
}

fn fill_page<
    D,
    F: Fn(&Vec<u8>) -> Option<D>,
    E: Fn(&Vec<String>, &Vec<u8>, &D) -> Vec<Vec<u8>>,
>(
    index: &String,
    paths: &Vec<String>,
    rows: &Vec<VersionedRow>,
    decode: &F,
    entries: &E,
) -> (r: Vec<IndexOp>)
    requires
        is_decoder::<D, F>(*decode),
        is_entry_function::<D, E>(*entries),
    ensures
        op_views(r@) == fill_ops(index@, *paths, rows@, *decode, *entries),
{
    let mut out: Vec<IndexOp> = Vec::new();
    let mut i: usize = 0;
    proof {
        assert(rows@.take(0) =~= Seq::<VersionedRow>::empty());
        assert(op_views(out@) =~= Seq::<OpView>::empty());
    }
    while i < rows.len()
        invariant
            is_decoder::<D, F>(*decode),
            is_entry_function::<D, E>(*entries),
            i <= rows@.len(),
            op_views(out@) == fill_ops(
                index@,
                *paths,
                rows@.take(i as int),
                *decode,
                *entries,
            ),
        decreases rows@.len() - i,
    {
        proof {
            assert(rows@.take(i + 1).drop_last() =~= rows@.take(i as int));
            assert(rows@.take(i + 1).last() == rows@[i as int]);
        }
        let row = &rows[i];
        if let Some(b) = &row.value {
            if let Some(d) = decode(b) {
                let keys = entries(paths, &row.key, &d);
                proof {
                    assert(doc_of(*decode, *b) == Some(d));
                    assert(key_views(keys@) == entry_keys(*entries, row.key, *paths, d));
                }
                crate::maintenance::push_key_ops(&mut out, index, &row.key, keys, true);
            } else {
                proof {
                    assert(doc_of(*decode, *b) is None);
                }
            }
        }
        i = i + 1;
    }
    proof {
        assert(rows@.take(rows@.len() as int) =~= rows@);
    }
    out
}

/// The entry that a document has in a geo index over `path`, if it has one.
pub open spec fn geo_key<D, E: Fn(&String, &Vec<u8>, &D) -> Option<Vec<u8>>>(
    entry: E,
    path: String,
    key: Vec<u8>,
    doc: D,
) -> Option<Seq<u8>> {
    opt_key(choose|r: Option<Vec<u8>>| call_ensures(entry, (&path, &key, &doc), r))
}

/// Whether a function gives the geo entries of documents, always the same.
pub open spec fn is_geo_function<D, E: Fn(&String, &Vec<u8>, &D) -> Option<Vec<u8>>>(entry: E) -> bool {
    &&& forall|p: &String, k: &Vec<u8>, d: &D| call_requires(entry, (p, k, d))
    &&& forall|p: &String, k: &Vec<u8>, d: &D, a: Option<Vec<u8>>, b: Option<Vec<u8>>|
        call_ensures(entry, (p, k, d), a) && call_ensures(entry, (p, k, d), b) ==> opt_key(a)
            == opt_key(b)
}

/// The entries of a run of rows under a geo index: that of each live row that
/// decodes to a document with a point.
pub open spec fn geo_fill<
    D,
    F: Fn(&Vec<u8>) -> Option<D>,
    E: Fn(&String, &Vec<u8>, &D) -> Option<Vec<u8>>,
>(index: Seq<char>, path: String, rows: Seq<VersionedRow>, decode: F, entry: E) -> Seq<OpView>
    decreases rows.len(),
{
    if rows.len() == 0 {
        Seq::empty()
    } else {
        let before = geo_fill(index, path, rows.drop_last(), decode, entry);
        let row = rows.last();
        match row.value {
            None => before,
            Some(b) => match doc_of(decode, b) {
                None => before,
                Some(d) => match geo_key(entry, path, row.key, d) {
                    None => before,
                    Some(k) => before.push(OpView { index, key: k, row: row.key@, put: true }),
                },
            },
        }
    }
}

fn geo_fill_page<
    D,
    F: Fn(&Vec<u8>) -> Option<D>,
    E: Fn(&String, &Vec<u8>, &D) -> Option<Vec<u8>>,
>(index: &String, path: &String, rows: &Vec<VersionedRow>, decode: &F, entry: &E) -> (r: Vec<IndexOp>)
    requires
        is_decoder::<D, F>(*decode),
        is_geo_function::<D, E>(*entry),
    ensures
        op_views(r@) == geo_fill(index@, *path, rows@, *decode, *entry),
{
    let mut out: Vec<IndexOp> = Vec::new();
    let mut i: usize = 0;
    proof {
        assert(rows@.take(0) =~= Seq::<VersionedRow>::empty());
        assert(op_views(out@) =~= Seq::<OpView>::empty());
    }
    while i < rows.len()
        invariant
            is_decoder::<D, F>(*decode),
            is_geo_function::<D, E>(*entry),
            i <= rows@.len(),
            op_views(out@) == geo_fill(index@, *path, rows@.take(i as int), *decode, *entry),
        decreases rows@.len() - i,
    {
        let ghost before = op_views(out@);
        proof {
            assert(rows@.take(i + 1).drop_last() =~= rows@.take(i as int));
            assert(rows@.take(i + 1).last() == rows@[i as int]);
        }
        let row = &rows[i];
        if let Some(b) = &row.value {
            let found = decode(b);
            proof {
                assert(call_ensures(*decode, (b,), found));
                assert(doc_of(*decode, *b) == found);
            }
            if let Some(d) = found {
                let made = entry(path, &row.key, &d);
                proof {
                    assert(call_ensures(*entry, (path, &row.key, &d), made));
                    assert(geo_key(*entry, *path, row.key, d) == opt_key(made));
                }
                if let Some(key) = made {
                    let ghost k = key@;
                    out.push(
                        IndexOp {
                            index: index.clone(),
                            key,
                            row: copy_bytes(row.key.as_slice()),
                            put: true,
                        },
                    );
                    proof {
                        assert(op_views(out@) =~= before.push(
                            OpView { index: index@, key: k, row: row.key@, put: true },
                        ));
                    }
                }
            }
        }
        i = i + 1;
    }
    proof {
        assert(rows@.take(rows@.len() as int) =~= rows@);
    }
    out
}

/// The entries of a run of rows under a global index: those of each live row
/// that decodes to a document, each once and in ascending order.
pub open spec fn global_fill<
    D,
    F: Fn(&Vec<u8>) -> Option<D>,
    E: Fn(&Vec<String>, &Vec<u8>, &D) -> Vec<Vec<u8>>,
>(
    index: Seq<char>,
    paths: Vec<String>,
    rows: Seq<VersionedRow>,
    decode: F,
    entries: E,
) -> Seq<OpView>
    decreases rows.len(),
{
    if rows.len() == 0 {
        Seq::empty()
    } else {
        let before = global_fill(index, paths, rows.drop_last(), decode, entries);
        let row = rows.last();
        match row.value {
            None => before,
            Some(b) => match doc_of(decode, b) {
                None => before,
                Some(d) => before + key_ops(
                    index,
                    row.key@,
                    sorted_missing(entry_keys(entries, row.key, paths, d), Seq::empty()),
                    true,
                ),
            },
        }
    }
}

fn global_fill_page<
    D,
    F: Fn(&Vec<u8>) -> Option<D>,
    E: Fn(&Vec<String>, &Vec<u8>, &D) -> Vec<Vec<u8>>,
>(
    index: &String,
    paths: &Vec<String>,
    rows: &Vec<VersionedRow>,
    decode: &F,
    entries: &E,
) -> (r: Vec<IndexOp>)
    requires
        is_decoder::<D, F>(*decode),
        is_entry_function::<D, E>(*entries),
    ensures
        op_views(r@) == global_fill(index@, *paths, rows@, *decode, *entries),
{
    let mut out: Vec<IndexOp> = Vec::new();
    let none: Vec<Vec<u8>> = Vec::new();
    let mut i: usize = 0;
    proof {
        assert(rows@.take(0) =~= Seq::<VersionedRow>::empty());
        assert(op_views(out@) =~= Seq::<OpView>::empty());
        assert(crate::point_keys::key_views(none@) =~= Seq::<Seq<u8>>::empty());
    }
    while i < rows.len()
        invariant
            is_decoder::<D, F>(*decode),
            is_entry_function::<D, E>(*entries),
            i <= rows@.len(),
            crate::point_keys::key_views(none@) == Seq::<Seq<u8>>::empty(),
            op_views(out@) == global_fill(
                index@,
                *paths,
                rows@.take(i as int),
                *decode,
                *entries,
            ),
        decreases rows@.len() - i,
    {
        proof {
            assert(rows@.take(i + 1).drop_last() =~= rows@.take(i as int));
            assert(rows@.take(i + 1).last() == rows@[i as int]);
        }
        let row = &rows[i];
        if let Some(b) = &row.value {
            let found = decode(b);
            proof {
                assert(call_ensures(*decode, (b,), found));
                assert(doc_of(*decode, *b) == found);
            }
            if let Some(d) = found {
                let keys = entries(paths, &row.key, &d);
                proof {
                    assert(key_views(keys@) == entry_keys(*entries, row.key, *paths, d));
                }
                let (_, come) = global_entry_delta(&none, &keys);
                proof {
                    assert(crate::point_keys::key_views(keys@) =~= key_views(keys@));
                    assert(crate::point_keys::key_views(come@) =~= key_views(come@));
                }
                crate::maintenance::push_key_ops(&mut out, index, &row.key, come, true);
            }
        }
        i = i + 1;
    }
    proof {
        assert(rows@.take(rows@.len() as int) =~= rows@);
    }
    out
}

/// Whether a document was said to have a vector at `path`, of this dimension.
pub open spec fn has_vector<D, V: Fn(&String, usize, &D) -> bool>(
    vector: V,
    path: String,
    dim: usize,
    doc: D,
) -> bool {
    choose|r: bool| call_ensures(vector, (&path, dim, &doc), r)
}

/// Whether a test for vectors always says the same.
pub open spec fn is_vector_test<D, V: Fn(&String, usize, &D) -> bool>(vector: V) -> bool {
    &&& forall|p: &String, n: usize, d: &D| call_requires(vector, (p, n, d))
    &&& forall|p: &String, n: usize, d: &D, a: bool, b: bool|
        call_ensures(vector, (p, n, d), a) && call_ensures(vector, (p, n, d), b) ==> a == b
}

/// The places of the rows of a page that go into a vector index: the live ones
/// that decode to a document with a vector.
pub open spec fn vector_places<
    D,
    F: Fn(&Vec<u8>) -> Option<D>,
    V: Fn(&String, usize, &D) -> bool,
>(path: String, dim: usize, rows: Seq<VersionedRow>, decode: F, vector: V) -> Seq<int>
    decreases rows.len(),
{
    if rows.len() == 0 {
        Seq::empty()
    } else {
        let before = vector_places(path, dim, rows.drop_last(), decode, vector);
        match rows.last().value {
            None => before,
            Some(b) => match doc_of(decode, b) {
                None => before,
                Some(d) => if has_vector(vector, path, dim, d) {
                    before.push(rows.len() - 1)
                } else {
                    before
                },
            },
        }
    }
}

/// The latest of a stamp and those of a run of rows, deleted ones too.
pub open spec fn latest_of(start: Hlc, rows: Seq<VersionedRow>) -> Hlc
    decreases rows.len(),
{
    if rows.len() == 0 {
        start
    } else {
        hlc_max(latest_of(start, rows.drop_last()), rows.last().hlc)
    }
}

fn vector_fill_page<
    D,
    F: Fn(&Vec<u8>) -> Option<D>,
    V: Fn(&String, usize, &D) -> bool,
>(
    path: &String,
    dim: usize,
    rows: &Vec<VersionedRow>,
    mark: Hlc,
    decode: &F,
    vector: &V,
) -> (r: (Vec<usize>, Hlc))
    requires
        is_decoder::<D, F>(*decode),
        is_vector_test::<D, V>(*vector),
    ensures
        crate::order::as_places(r.0@) == vector_places(*path, dim, rows@, *decode, *vector),
        r.1 == latest_of(mark, rows@),
{
    let mut places: Vec<usize> = Vec::new();
    let mut latest = mark;
    let mut i: usize = 0;
    proof {
        assert(rows@.take(0) =~= Seq::<VersionedRow>::empty());
        assert(crate::order::as_places(places@) =~= Seq::<int>::empty());
    }
    while i < rows.len()
        invariant
            is_decoder::<D, F>(*decode),
            is_vector_test::<D, V>(*vector),
            i <= rows@.len(),
            crate::order::as_places(places@) == vector_places(
                *path,
                dim,
                rows@.take(i as int),
                *decode,
                *vector,
            ),
            latest == latest_of(mark, rows@.take(i as int)),
        decreases rows@.len() - i,
    {
        let ghost before = crate::order::as_places(places@);
        proof {
            assert(rows@.take(i + 1).drop_last() =~= rows@.take(i as int));
            assert(rows@.take(i + 1).last() == rows@[i as int]);
        }
        latest = latest.later(rows[i].hlc);
        if let Some(b) = &rows[i].value {
            let found = decode(b);
            proof {
                assert(call_ensures(*decode, (b,), found));
                assert(doc_of(*decode, *b) == found);
            }
            if let Some(d) = found {
                let there = vector(path, dim, &d);
                proof {
                    assert(call_ensures(*vector, (path, dim, &d), there));
                    assert(has_vector(*vector, *path, dim, d) == there);
                }
                if there {
                    places.push(i);
                    proof {
                        assert(crate::order::as_places(places@) =~= before.push(i as int));
                    }
                }
            }
        }
        i = i + 1;
    }
    proof {
        assert(rows@.take(rows@.len() as int) =~= rows@);
    }
    (places, latest)
}

/// One page of a vector index's backfill: the places of the rows whose vectors
/// go in, the stamp up to which the index is complete then, and where the next
/// page starts.
pub struct VectorPage {
    pub places: Vec<usize>,
    pub mark: Hlc,
    pub next: Option<Vec<u8>>,
}

/// One page of a backfill: the entries to put, and where the next page starts.
pub struct BackfillPage {
    pub ops: Vec<IndexOp>,
    pub next: Option<Vec<u8>>,
}

impl Database {
    /// One page of a secondary index's backfill over `rows`, up to `limit` of
    /// the table's rows behind the cursor. The page that ends the table ends
    /// the build. Nothing where the index is gone or is not being built, or its
    /// table is not there.
    pub fn backfill_index_page<
        D,
        F: Fn(&Vec<u8>) -> Option<D>,
        E: Fn(&Vec<String>, &Vec<u8>, &D) -> Vec<Vec<u8>>,
    >(
        &mut self,
        name: &str,
        has_table: bool,
        rows: &Vec<VersionedRow>,
        limit: usize,
        decode: &F,
        entries: &E,
    ) -> (r: Option<BackfillPage>)
        requires
            old(self).wf(),
            is_decoder::<D, F>(*decode),
            is_entry_function::<D, E>(*entries),
        ensures
            final(self).wf(),
            !(builds_index(old(self)@.cat, name@) && has_table) ==> r is None && final(self)@ == old(
                self,
            )@,
            builds_index(old(self)@.cat, name@) && has_table ==> (r matches Some(p) && op_views(p.ops@)
                == fill_ops(
                name@,
                old(self).catalog.indexes@[name@].paths,
                rows@,
                *decode,
                *entries,
            ) && opt_key(p.next) == next_cursor(row_versions(rows@), limit as nat) && final(self)@
                == if rows@.len() < limit {
                DbView {
                    cat: CatalogView {
                        indexes: settled_index(old(self)@.cat.indexes, name@),
                        ..old(self)@.cat
                    },
                    ..old(self)@
                }
            } else {
                old(self)@
            }),
    {
        let name_owned = name.to_owned();
        let ops = match self.catalog.indexes.get(&name_owned) {
            None => {
                return None;
            },
            Some(def) => {
                if !def.building || !has_table {
                    return None;
                }
                fill_page(&name_owned, &def.paths, rows, decode, entries)
            },
        };
        let next = page_cursor(rows, limit);
        if rows.len() < limit {
            self.finish_index_backfill(name);
        }
        Some(BackfillPage { ops, next })
    }
}

/// The places of a page's rows that a catching-up search index replays.
pub open spec fn replayed_places(rows: Seq<VersionedRow>, watermark: Option<Hlc>) -> Seq<int>
    decreases rows.len(),
{
    if rows.len() == 0 {
        Seq::empty()
    } else {
        let before = replayed_places(rows.drop_last(), watermark);
        if replays(watermark, rows.last().hlc) {
            before.push(rows.len() - 1)
        } else {
            before
        }
    }
}

/// One page of a search index's catch-up: the places of the rows to replay,
/// where the next page starts, and whether this one ends the catch-up.
pub struct CatchUpPage {
    pub places: Vec<usize>,
    pub next: Option<Vec<u8>>,
    pub done: bool,
}

impl Database {
    /// One page of a search index's deferred catch-up over `rows`, up to
    /// `limit` of the table's rows behind the cursor. The page that ends the
    /// table opens the index to searches. Nothing where the index is gone, or
    /// its table is not there.
    pub fn search_catchup_page(
        &mut self,
        name: &str,
        has_table: bool,
        rows: &Vec<VersionedRow>,
        limit: usize,
        watermark: Option<Hlc>,
    ) -> (r: Option<CatchUpPage>)
        requires
            old(self).wf(),
        ensures
            final(self).wf(),
            final(self)@ == (if r matches Some(p) && p.done {
                DbView {
                    building_searches: old(self)@.building_searches.remove(name@),
                    ..old(self)@
                }
            } else {
                old(self)@
            }),
            r is Some <==> old(self)@.cat.search_indexes.dom().contains(name@) && has_table,
            r matches Some(p) ==> crate::order::as_places(p.places@) == replayed_places(
                rows@,
                watermark,
            ) && p.done == (rows@.len() < limit) && opt_key(p.next) == next_cursor(
                row_versions(rows@),
                limit as nat,
            ),
    {
        if !self.catalog.search_indexes.contains(&name.to_owned()) || !has_table {
            return None;
        }
        let mut places: Vec<usize> = Vec::new();
        let mut i: usize = 0;
        let mut state = CatchUp::new(watermark);
        proof {
            assert(rows@.take(0) =~= Seq::<VersionedRow>::empty());
            assert(crate::order::as_places(places@) =~= Seq::<int>::empty());
        }
        while i < rows.len()
            invariant
                i <= rows@.len(),
                *self == *old(self),
                state.watermark == watermark,
                crate::order::as_places(places@) == replayed_places(
                    rows@.take(i as int),
                    watermark,
                ),
            decreases rows@.len() - i,
        {
            proof {
                assert(rows@.take(i + 1).drop_last() =~= rows@.take(i as int));
                assert(rows@.take(i + 1).last() == rows@[i as int]);
            }
            if state.take_in(rows[i].hlc) {
                let ghost before = crate::order::as_places(places@);
                places.push(i);
                proof {
                    assert(crate::order::as_places(places@) =~= before.push(i as int));
                }
            }
            i = i + 1;
        }
        proof {
            assert(rows@.take(rows@.len() as int) =~= rows@);
        }
        let done: bool = rows.len() < limit;
        if done {
            self.building_searches.drop_name(name);
        }
        Some(CatchUpPage { places, next: page_cursor(rows, limit), done })
    }

    /// One page of a vector index's backfill over `rows`, up to `limit` of the
    /// table's rows behind the cursor. `live` is whether the index is loaded:
    /// where it is not, nothing goes in and its stamp `mark` stays. The page
    /// that ends the table ends the build, and so does a dropped index or table.
    /// Nothing where the index is not being built any more.
    pub fn backfill_vector_page<
        D,
        F: Fn(&Vec<u8>) -> Option<D>,
        V: Fn(&String, usize, &D) -> bool,
    >(
        &mut self,
        name: &str,
        has_table: bool,
        live: bool,
        rows: &Vec<VersionedRow>,
        limit: usize,
        mark: Hlc,
        decode: &F,
        vector: &V,
    ) -> (r: Option<VectorPage>)
        requires
            old(self).wf(),
            is_decoder::<D, F>(*decode),
            is_vector_test::<D, V>(*vector),
        ensures
            final(self).wf(),
            ({
                let building = old(self)@.building_vectors.contains(name@);
                let here = old(self)@.cat.vector_indexes.dom().contains(name@) && has_table;
                let def = old(self).catalog.vector_indexes@[name@];
                &&& r is Some <==> building && here
                &&& r matches Some(p) ==> opt_key(p.next) == next_cursor(
                    row_versions(rows@),
                    limit as nat,
                ) && (if live {
                    crate::order::as_places(p.places@) == vector_places(
                        def.path,
                        def.dim,
                        rows@,
                        *decode,
                        *vector,
                    ) && p.mark == latest_of(mark, rows@)
                } else {
                    p.places@.len() == 0 && p.mark == mark
                })
                &&& final(self)@ == if building && (!here || rows@.len() < limit) {
                    DbView {
                        building_vectors: old(self)@.building_vectors.remove(name@),
                        ..old(self)@
                    }
                } else {
                    old(self)@
                }
            }),
    {
        if !self.building_vectors.contains(name) {
            return None;
        }
        let filled = match self.catalog.vector_indexes.get(&name.to_owned()) {
            None => None,
            Some(def) => if !has_table {
                None
            } else if live {
                Some(vector_fill_page(&def.path, def.dim, rows, mark, decode, vector))
            } else {
                Some((Vec::new(), mark))
            },
        };
        match filled {
            None => {
                self.finish_vector_backfill(name);
                None
            },
            Some((places, mark)) => {
                if rows.len() < limit {
                    self.finish_vector_backfill(name);
                }
                Some(VectorPage { places, mark, next: page_cursor(rows, limit) })
            },
        }
    }

    /// One page of a geo index's backfill over `rows`, up to `limit` of the
    /// table's rows behind the cursor. The page that ends the table ends the
    /// build. Nothing where the index is gone or is not being built, or its
    /// table is not there.
    pub fn backfill_geo_page<
        D,
        F: Fn(&Vec<u8>) -> Option<D>,
        E: Fn(&String, &Vec<u8>, &D) -> Option<Vec<u8>>,
    >(
        &mut self,
        name: &str,
        has_table: bool,
        rows: &Vec<VersionedRow>,
        limit: usize,
        decode: &F,
        entry: &E,
    ) -> (r: Option<BackfillPage>)
        requires
            old(self).wf(),
            is_decoder::<D, F>(*decode),
            is_geo_function::<D, E>(*entry),
        ensures
            final(self).wf(),
            ({
                let m = old(self)@.cat.geo_indexes;
                let here = m.dom().contains(name@) && m[name@].building && has_table;
                &&& r is Some <==> here
                &&& r matches Some(p) ==> opt_key(p.next) == next_cursor(
                    row_versions(rows@),
                    limit as nat,
                ) && op_views(p.ops@) == geo_fill(
                    name@,
                    old(self).catalog.geo_indexes@[name@].path,
                    rows@,
                    *decode,
                    *entry,
                )
                &&& final(self)@ == if here && rows@.len() < limit {
                    DbView {
                        cat: CatalogView {
                            geo_indexes: m.insert(
                                name@,
                                GeoIndexView { building: false, ..m[name@] },
                            ),
                            ..old(self)@.cat
                        },
                        ..old(self)@
                    }
                } else {
                    old(self)@
                }
            }),
    {
        let name_owned = name.to_owned();
        let ops = match self.catalog.geo_indexes.get(&name_owned) {
            None => {
                return None;
            },
            Some(d) => {
                if !d.building || !has_table {
                    return None;
                }
                geo_fill_page(&name_owned, &d.path, rows, decode, entry)
            },
        };
        if rows.len() < limit {
            self.finish_geo_backfill(name);
        }
        Some(BackfillPage { ops, next: page_cursor(rows, limit) })
    }

    /// One page of a global index's backfill on a single node over `rows`, up to
    /// `limit` of the table's rows behind the cursor. The page that ends the
    /// table ends the build, under a new schema stamp, and so does a dropped
    /// table. Nothing where the index is gone or is not being built.
    pub fn backfill_gidx_page<
        D,
        F: Fn(&Vec<u8>) -> Option<D>,
        E: Fn(&Vec<String>, &Vec<u8>, &D) -> Vec<Vec<u8>>,
    >(
        &mut self,
        name: &str,
        has_table: bool,
        rows: &Vec<VersionedRow>,
        limit: usize,
        hlc: Hlc,
        decode: &F,
        entries: &E,
    ) -> (r: Option<BackfillPage>)
        requires
            old(self).wf(),
            is_decoder::<D, F>(*decode),
            is_entry_function::<D, E>(*entries),
        ensures
            final(self).wf(),
            ({
                let here = awaits_global_backfill(old(self)@.cat, name@);
                &&& r is Some <==> here && has_table
                &&& r matches Some(p) ==> opt_key(p.next) == next_cursor(
                    row_versions(rows@),
                    limit as nat,
                ) && op_views(p.ops@) == global_fill(
                    name@,
                    old(self).catalog.indexes@[name@].paths,
                    rows@,
                    *decode,
                    *entries,
                )
                &&& final(self)@ == if here && (!has_table || rows@.len() < limit) {
                    DbView {
                        cat: stamped(
                            CatalogView {
                                indexes: old(self)@.cat.indexes.insert(
                                    name@,
                                    IndexView {
                                        building: false,
                                        ..old(self)@.cat.indexes[name@]
                                    },
                                ),
                                ..old(self)@.cat
                            },
                            "i:"@ + name@,
                            hlc,
                            false,
                        ),
                        ..old(self)@
                    }
                } else {
                    old(self)@
                }
            }),
    {
        let name_owned = name.to_owned();
        let filled = match self.catalog.indexes.get(&name_owned) {
            None => {
                return None;
            },
            Some(d) => {
                if !d.global || !d.building {
                    return None;
                }
                if has_table {
                    Some(global_fill_page(&name_owned, &d.paths, rows, decode, entries))
                } else {
                    None
                }
            },
        };
        match filled {
            None => {
                self.finish_global_backfill(name, hlc);
                None
            },
            Some(ops) => {
                if rows.len() < limit {
                    self.finish_global_backfill(name, hlc);
                }
                Some(BackfillPage { ops, next: page_cursor(rows, limit) })
            },
        }
    }
}

/// Whether an index exists and is being built.
pub open spec fn builds_index(v: CatalogView, name: Seq<char>) -> bool {
    v.indexes.dom().contains(name) && v.indexes[name].building
}

/// Whether one of the value tuples of a row, by their encoded prefixes, makes
/// an entry.
pub open spec fn produces(prefixes: Seq<Vec<u8>>, row_key: Seq<u8>, ekey: Seq<u8>) -> bool {
    exists|i: int| 0 <= i < prefixes.len() && entry_key((#[trigger] prefixes[i])@, row_key) == ekey
}

/// Whether a row whose value tuples have these encoded prefixes makes a global
/// index entry.
pub fn row_produces(prefixes: &Vec<Vec<u8>>, row_key: &[u8], ekey: &[u8]) -> (r: bool)
    ensures
        r == produces(prefixes@, row_key@, ekey@),
{
    let mut i: usize = 0;
    while i < prefixes.len()
        invariant
            i <= prefixes@.len(),
            forall|k: int|
                0 <= k < i ==> entry_key((#[trigger] prefixes@[k])@, row_key@) != ekey@,
        decreases prefixes@.len() - i,
    {
        let key = gidx_entry_key(prefixes[i].as_slice(), row_key);
        if same_bytes(key.as_slice(), ekey) {
            proof {
                assert(entry_key(prefixes@[i as int]@, row_key@) == ekey@);
            }
            return true;
        }
        i = i + 1;
    }
    false
}

/// Whether an entry's row is known to make it: `made` says of a row key and an
/// entry whether that row, as it now is, makes that entry. A malformed entry
/// is made by none.
pub open spec fn is_made<P: Fn(&[u8], &Vec<u8>) -> bool>(made: P, ekey: Vec<u8>) -> bool {
    is_entry_key(ekey@) && exists|k: &[u8]|
        k@ == ekey@.skip(2 + header_len(ekey@)) && #[trigger] call_ensures(made, (k, &ekey), true)
}

/// Whether a producer test can be asked of every entry and answers by the
/// bytes of the row key.
pub open spec fn is_producer_test<P: Fn(&[u8], &Vec<u8>) -> bool>(made: P) -> bool {
    &&& forall|k: &[u8], e: &Vec<u8>| call_requires(made, (k, e))
    &&& forall|k: &[u8], l: &[u8], e: &Vec<u8>, a: bool, b: bool|
        k@ == l@ && call_ensures(made, (k, e), a) && call_ensures(made, (l, e), b) ==> a == b
}

fn entry_is_made<P: Fn(&[u8], &Vec<u8>) -> bool>(made: &P, ekey: &Vec<u8>) -> (r: bool)
    requires
        is_producer_test(*made),
    ensures
        r == is_made(*made, *ekey),
{
    match gidx_entry_row_key(ekey.as_slice()) {
        None => false,
        Some(k) => made(k, ekey),
    }
}

/// The live entries of a page that no row makes.
pub open spec fn orphans_of<P: Fn(&[u8], &Vec<u8>) -> bool>(rows: Seq<VersionedRow>, made: P) -> Seq<
    Seq<u8>,
>
    decreases rows.len(),
{
    if rows.len() == 0 {
        Seq::empty()
    } else {
        let before = orphans_of(rows.drop_last(), made);
        if rows.last().value is Some && !is_made(made, rows.last().key) {
            before.push(rows.last().key@)
        } else {
            before
        }
    }
}

/// The entries of a page to remove from a global index: live ones whose row is
/// gone or no longer makes them.
pub fn gidx_orphans<P: Fn(&[u8], &Vec<u8>) -> bool>(rows: &Vec<VersionedRow>, made: &P) -> (r: Vec<
    Vec<u8>,
>)
    requires
        is_producer_test(*made),
    ensures
        key_views(r@) == orphans_of(rows@, *made),
{
    let mut out: Vec<Vec<u8>> = Vec::new();
    let mut i: usize = 0;
    proof {
        assert(rows@.take(0) =~= Seq::<VersionedRow>::empty());
        assert(key_views(out@) =~= Seq::<Seq<u8>>::empty());
    }
    while i < rows.len()
        invariant
            is_producer_test(*made),
            i <= rows@.len(),
            key_views(out@) == orphans_of(rows@.take(i as int), *made),
        decreases rows@.len() - i,
    {
        proof {
            assert(rows@.take(i + 1).drop_last() =~= rows@.take(i as int));
            assert(rows@.take(i + 1).last() == rows@[i as int]);
        }
        if rows[i].value.is_some() && !entry_is_made(made, &rows[i].key) {
            let ghost before = key_views(out@);
            out.push(copy_bytes(rows[i].key.as_slice()));
            proof {
                assert(key_views(out@) =~= before.push(rows@[i as int].key@));
            }
        }
        i = i + 1;
    }
    proof {
        assert(rows@.take(rows@.len() as int) =~= rows@);
    }
    out
}

/// Those of a list of entries that a row makes, in order.
pub open spec fn made_of<P: Fn(&[u8], &Vec<u8>) -> bool>(keys: Seq<Vec<u8>>, made: P) -> Seq<Seq<u8>>
    decreases keys.len(),
{
    if keys.len() == 0 {
        Seq::empty()
    } else {
        let before = made_of(keys.drop_last(), made);
        if is_made(made, keys.last()) {
            before.push(keys.last()@)
        } else {
            before
        }
    }
}

/// Those of a list of global index entries that this node's rows make.
pub fn gidx_produced<P: Fn(&[u8], &Vec<u8>) -> bool>(keys: &Vec<Vec<u8>>, made: &P) -> (r: Vec<
    Vec<u8>,
>)
    requires
        is_producer_test(*made),
    ensures
        key_views(r@) == made_of(keys@, *made),
{
    let mut out: Vec<Vec<u8>> = Vec::new();
    let mut i: usize = 0;
    proof {
        assert(keys@.take(0) =~= Seq::<Vec<u8>>::empty());
        assert(key_views(out@) =~= Seq::<Seq<u8>>::empty());
    }
    while i < keys.len()
        invariant
            is_producer_test(*made),
            i <= keys@.len(),
            key_views(out@) == made_of(keys@.take(i as int), *made),
        decreases keys@.len() - i,
    {
        proof {
            assert(keys@.take(i + 1).drop_last() =~= keys@.take(i as int));
            assert(keys@.take(i + 1).last() == keys@[i as int]);
        }
        if entry_is_made(made, &keys[i]) {
            let ghost before = key_views(out@);
            out.push(copy_bytes(keys[i].as_slice()));
            proof {
                assert(key_views(out@) =~= before.push(keys@[i as int]@));
            }
        }
        i = i + 1;
    }
    proof {
        assert(keys@.take(keys@.len() as int) =~= keys@);
    }
    out
}

/// Whether an entry is live among the scanned rows of an entry table and no
/// row makes it.
pub open spec fn is_orphan<P: Fn(&[u8], &Vec<u8>) -> bool>(
    rows: Seq<VersionedRow>,
    made: P,
    ekey: Seq<u8>,
) -> bool {
    exists|i: int|
        0 <= i < rows.len() && (#[trigger] rows[i]).key@ == ekey && rows[i].value is Some
            && !is_made(made, rows[i].key)
}

/// A repair removes exactly the live entries that no row makes: every one of
/// them, and never an entry that some row still makes.
pub proof fn repair_removes_exactly_the_orphans<P: Fn(&[u8], &Vec<u8>) -> bool>(
    rows: Seq<VersionedRow>,
    made: P,
    ekey: Seq<u8>,
)
    ensures
        orphans_of(rows, made).contains(ekey) <==> is_orphan(rows, made, ekey),
    decreases rows.len(),
{
    if rows.len() > 0 {
        let init = rows.drop_last();
        let before = orphans_of(init, made);
        let last = rows.last();
        repair_removes_exactly_the_orphans(init, made, ekey);
        if is_orphan(init, made, ekey) {
            let i = choose|i: int|
                0 <= i < init.len() && (#[trigger] init[i]).key@ == ekey && init[i].value is Some
                    && !is_made(made, init[i].key);
            assert(rows[i] == init[i]);
        }
        if is_orphan(rows, made, ekey) && !is_orphan(init, made, ekey) {
            let i = choose|i: int|
                0 <= i < rows.len() && (#[trigger] rows[i]).key@ == ekey && rows[i].value is Some
                    && !is_made(made, rows[i].key);
            if i < init.len() {
                assert(init[i] == rows[i]);
            }
        }
        if last.value is Some && !is_made(made, last.key) {
            let all = before.push(last.key@);
            assert(rows[rows.len() - 1] == last);
            if before.contains(ekey) {
                let p = before.index_of(ekey);
                assert(all[p] == ekey);
            }
            assert(all[before.len() as int] == last.key@);
            if all.contains(ekey) && ekey != last.key@ {
                let p = all.index_of(ekey);
                assert(before[p] == ekey);
            }
        }
    }
}

/// A row as it goes to another node: a deleted one has an empty value and is
/// no put.
pub fn wire_row(row: VersionedRow) -> (r: (Vec<u8>, Vec<u8>, Hlc, bool))
    ensures
        r.0 == row.key,
        r.2 == row.hlc,
        r.3 == (row.value is Some),
        match row.value {
            Some(b) => r.1 == b,
            None => r.1@.len() == 0,
        },
{
    match row.value {
        Some(bytes) => (row.key, bytes, row.hlc, true),
        None => (row.key, Vec::new(), row.hlc, false),
    }
}

/// The entries that a row makes; nothing where its payload is no document.
pub open spec fn document_entries<E: Fn(&Vec<u8>, &Vec<u8>) -> Option<Vec<Vec<u8>>>>(
    e: E,
    key: Vec<u8>,
    bytes: Vec<u8>,
) -> Option<Vec<Vec<u8>>> {
    choose|r: Option<Vec<Vec<u8>>>| call_ensures(e, (&key, &bytes), r)
}

/// The entries that a row makes.
pub open spec fn entries_made<E: Fn(&Vec<u8>, &Vec<u8>) -> Option<Vec<Vec<u8>>>>(
    e: E,
    key: Vec<u8>,
    bytes: Vec<u8>,
) -> Seq<Vec<u8>> {
    match document_entries(e, key, bytes) {
        Some(r) => r@,
        None => Seq::empty(),
    }
}

/// Whether a function gives the entries of rows, always the same.
pub open spec fn is_entry_maker<E: Fn(&Vec<u8>, &Vec<u8>) -> Option<Vec<Vec<u8>>>>(e: E) -> bool {
    &&& forall|k: &Vec<u8>, b: &Vec<u8>| call_requires(e, (k, b))
    &&& forall|k: &Vec<u8>, b: &Vec<u8>, x: Option<Vec<Vec<u8>>>, y: Option<Vec<Vec<u8>>>|
        call_ensures(e, (k, b), x) && call_ensures(e, (k, b), y) ==> x == y
}

/// Whether some row of a page is live and holds a document.
pub open spec fn holds_document<E: Fn(&Vec<u8>, &Vec<u8>) -> Option<Vec<Vec<u8>>>>(
    e: E,
    rows: Seq<VersionedRow>,
) -> bool {
    exists|i: int| #![trigger rows[i]]
        0 <= i < rows.len() && rows[i].value is Some && document_entries(
            e,
            rows[i].key,
            rows[i].value->0,
        ) is Some
}

/// The entries that live rows make and that are not there; the first entry
/// that cannot be looked up fails the whole.
pub open spec fn missing_of<
    E: Fn(&Vec<u8>, &Vec<u8>) -> Option<Vec<Vec<u8>>>,
    F: Fn(&Vec<u8>) -> Result<Option<Vec<u8>>, EngineError>,
>(e: E, f: F, rows: Seq<VersionedRow>) -> Result<Seq<Seq<u8>>, EngineError>
    decreases rows.len(),
{
    if rows.len() == 0 {
        Ok(Seq::empty())
    } else {
        match missing_of(e, f, rows.drop_last()) {
            Err(x) => Err(x),
            Ok(before) => match rows.last().value {
                None => Ok(before),
                Some(bytes) => match present_of(
                    f,
                    entries_made(e, rows.last().key, bytes),
                    false,
                ) {
                    Err(x) => Err(x),
                    Ok(more) => Ok(before + more),
                },
            },
        }
    }
}

proof fn lemma_missing_fails<
    E: Fn(&Vec<u8>, &Vec<u8>) -> Option<Vec<Vec<u8>>>,
    F: Fn(&Vec<u8>) -> Result<Option<Vec<u8>>, EngineError>,
>(e: E, f: F, rows: Seq<VersionedRow>, n: int)
    requires
        0 <= n <= rows.len(),
        missing_of(e, f, rows.take(n)) is Err,
    ensures
        missing_of(e, f, rows) == missing_of(e, f, rows.take(n)),
    decreases rows.len() - n,
{
    if n == rows.len() {
        assert(rows.take(n) =~= rows);
    } else {
        assert(rows.take(n + 1).drop_last() =~= rows.take(n));
        lemma_missing_fails(e, f, rows, n + 1);
    }
}

/// Whether an index is a global one.
pub open spec fn is_global(v: CatalogView, index: Seq<char>) -> bool {
    v.indexes.dom().contains(index) && v.indexes[index].global
}

impl Database {
    /// One page of the collection of a global index's orphans over its entries
    /// `rows`, up to `limit` of them behind the cursor: where the next page
    /// starts, and the entries to remove. Nothing where the index is gone or
    /// its entries are not at hand.
    pub fn gidx_gc_page<P: Fn(&[u8], &Vec<u8>) -> bool>(
        &self,
        index: &str,
        open: bool,
        rows: &Vec<VersionedRow>,
        limit: usize,
        made: &P,
    ) -> (r: (Option<Vec<u8>>, Vec<Vec<u8>>))
        requires
            self.wf(),
            is_producer_test(*made),
        ensures
            if is_global(self@.cat, index@) && open {
                opt_key(r.0) == next_cursor(row_versions(rows@), limit as nat) && key_views(r.1@)
                    == orphans_of(rows@, *made)
            } else {
                r.0 is None && r.1@.len() == 0
            },
    {
        if !open || self.gidx_def(index).is_none() {
            return (None, Vec::new());
        }
        (page_cursor(rows, limit), gidx_orphans(rows, made))
    }

    /// One page of the healing of a global index over its table's rows `rows`,
    /// up to `limit` of them behind the cursor: where the next page starts, and
    /// the missing entries to write. `entries` gives the entries that a row
    /// makes, `read` the entry with a key. Nothing where the index or its table
    /// is gone. Where the entries are not at hand, nothing is missing, and the
    /// first live document ends the healing.
    pub fn gidx_heal_page<
        E: Fn(&Vec<u8>, &Vec<u8>) -> Option<Vec<Vec<u8>>>,
        F: Fn(&Vec<u8>) -> Result<Option<Vec<u8>>, EngineError>,
    >(
        &self,
        index: &str,
        has_table: bool,
        open: bool,
        rows: &Vec<VersionedRow>,
        limit: usize,
        entries: &E,
        read: &F,
    ) -> (r: Result<(Option<Vec<u8>>, Vec<Vec<u8>>), EngineError>)
        requires
            self.wf(),
            is_entry_maker(*entries),
            is_row_reader(*read),
        ensures
            if !is_global(self@.cat, index@) || !has_table {
                r matches Ok((next, keys)) && next is None && keys@.len() == 0
            } else if !open {
                r matches Ok((next, keys)) && keys@.len() == 0 && opt_key(next) == if holds_document(
                    *entries,
                    rows@,
                ) {
                    None
                } else {
                    next_cursor(row_versions(rows@), limit as nat)
                }
            } else {
                match missing_of(*entries, *read, rows@) {
                    Ok(missing) => r matches Ok((next, keys)) && opt_key(next) == next_cursor(
                        row_versions(rows@),
                        limit as nat,
                    ) && key_views(keys@) == missing,
                    Err(e) => r == Err::<(Option<Vec<u8>>, Vec<Vec<u8>>), EngineError>(e),
                }
            },
    {
        if !has_table || self.gidx_def(index).is_none() {
            return Ok((None, Vec::new()));
        }
        let mut missing: Vec<Vec<u8>> = Vec::new();
        let mut i: usize = 0;
        proof {
            assert(rows@.take(0) =~= Seq::<VersionedRow>::empty());
            assert(key_views(missing@) =~= Seq::<Seq<u8>>::empty());
        }
        while i < rows.len()
            invariant
                is_global(self@.cat, index@),
                has_table,
                is_entry_maker(*entries),
                is_row_reader(*read),
                i <= rows@.len(),
                open ==> missing_of(*entries, *read, rows@.take(i as int)) == Ok::<
                    Seq<Seq<u8>>,
                    EngineError,
                >(key_views(missing@)),
                !open ==> missing@.len() == 0 && !holds_document(*entries, rows@.take(i as int)),
            decreases rows@.len() - i,
        {
            proof {
                assert(rows@.take(i + 1).drop_last() =~= rows@.take(i as int));
                assert(rows@.take(i + 1).last() == rows@[i as int]);
            }
            if let Some(bytes) = &rows[i].value {
                let found = entries(&rows[i].key, bytes);
                proof {
                    assert(call_ensures(*entries, (&rows@[i as int].key, bytes), found));
                    assert(document_entries(*entries, rows@[i as int].key, *bytes) == found);
                }
                let made = match found {
                    None => Vec::new(),
                    Some(made) => {
                        if !open {
                            proof {
                                assert(holds_document(*entries, rows@));
                            }
                            return Ok((None, Vec::new()));
                        }
                        made
                    },
                };
                proof {
                    assert(entries_made(*entries, rows@[i as int].key, *bytes) =~= made@);
                }
                match sift_keys(&made, read, false) {
                    Err(e) => {
                        proof {
                            if open {
                                lemma_missing_fails(*entries, *read, rows@, i + 1);
                            } else {
                                assert(present_of(*read, made@, false) is Ok);
                            }
                        }
                        return Err(e);
                    },
                    Ok(more) => {
                        let ghost before = key_views(missing@);
                        let mut found = more;
                        let ghost fresh = key_views(found@);
                        missing.append(&mut found);
                        proof {
                            assert(key_views(missing@) =~= before + fresh);
                        }
                    },
                }
            }
            proof {
                if !open && holds_document(*entries, rows@.take(i + 1)) {
                    let t = rows@.take(i + 1);
                    let j = choose|j: int| #![trigger t[j]]
                        0 <= j < t.len() && t[j].value is Some && document_entries(
                            *entries,
                            t[j].key,
                            t[j].value->0,
                        ) is Some;
                    if j < i {
                        assert(rows@.take(i as int)[j] == t[j]);
                    }
                }
            }
            i = i + 1;
        }
        proof {
            assert(rows@.take(rows@.len() as int) =~= rows@);
        }
        Ok((page_cursor(rows, limit), missing))
    }
}

/// Healing writes exactly the entries that a live row makes and that are not
/// there.
pub proof fn healing_writes_exactly_the_missing_entries<
    E: Fn(&Vec<u8>, &Vec<u8>) -> Option<Vec<Vec<u8>>>,
    F: Fn(&Vec<u8>) -> Result<Option<Vec<u8>>, EngineError>,
>(e: E, f: F, rows: Seq<VersionedRow>, ekey: Seq<u8>)
    requires
        missing_of(e, f, rows) is Ok,
    ensures
        missing_of(e, f, rows)->Ok_0.contains(ekey) <==> exists|i: int, j: int|
            0 <= i < rows.len() && rows[i].value is Some && is_missing_entry(
                f,
                entries_made(e, rows[i].key, rows[i].value->0),
                #[trigger] at_place(i, j),
                ekey,
            ),
    decreases rows.len(),
{
    if rows.len() > 0 {
        let init = rows.drop_last();
        healing_writes_exactly_the_missing_entries(e, f, init, ekey);
        let before = missing_of(e, f, init)->Ok_0;
        let all = missing_of(e, f, rows)->Ok_0;
        let last = rows.len() - 1;
        if let Some(bytes) = rows.last().value {
            let made = entries_made(e, rows.last().key, bytes);
            let more = present_of(f, made, false)->Ok_0;
            lemma_missing_entries(f, made, ekey);
            assert(all == before + more);
            if all.contains(ekey) {
                let p = choose|p: int| 0 <= p < all.len() && all[p] == ekey;
                if p < before.len() {
                    assert(before[p] == ekey);
                    let (i, j) = choose|i: int, j: int|
                        0 <= i < init.len() && init[i].value is Some && is_missing_entry(
                            f,
                            entries_made(e, init[i].key, init[i].value->0),
                            #[trigger] at_place(i, j),
                            ekey,
                        );
                    assert(rows[i] == init[i]);
                    assert(is_missing_entry(
                        f,
                        entries_made(e, rows[i].key, rows[i].value->0),
                        at_place(i, j),
                        ekey,
                    ));
                } else {
                    assert(more[p - before.len()] == ekey);
                    let j = choose|j: int| is_missing_entry(f, made, #[trigger] at_place(0, j), ekey);
                    assert(is_missing_entry(f, made, at_place(last, j), ekey));
                }
            }
            if before.contains(ekey) {
                let p = before.index_of(ekey);
                assert(all[p] == ekey);
            }
            if more.contains(ekey) {
                let p = more.index_of(ekey);
                assert(all[before.len() + p] == ekey);
            }
        }
        if exists|i: int, j: int|
            0 <= i < rows.len() && rows[i].value is Some && is_missing_entry(
                f,
                entries_made(e, rows[i].key, rows[i].value->0),
                #[trigger] at_place(i, j),
                ekey,
            ) {
            let (i, j) = choose|i: int, j: int|
                0 <= i < rows.len() && rows[i].value is Some && is_missing_entry(
                    f,
                    entries_made(e, rows[i].key, rows[i].value->0),
                    #[trigger] at_place(i, j),
                    ekey,
                );
            if i < init.len() {
                assert(rows[i] == init[i]);
                assert(is_missing_entry(
                    f,
                    entries_made(e, init[i].key, init[i].value->0),
                    at_place(i, j),
                    ekey,
                ));
            } else {
                assert(is_missing_entry(
                    f,
                    entries_made(e, rows[last].key, rows[last].value->0),
                    at_place(0, j),
                    ekey,
                ));
            }
        }
        if before.contains(ekey) {
            let (i, j) = choose|i: int, j: int|
                0 <= i < init.len() && init[i].value is Some && is_missing_entry(
                    f,
                    entries_made(e, init[i].key, init[i].value->0),
                    #[trigger] at_place(i, j),
                    ekey,
                );
            assert(rows[i] == init[i]);
            assert(is_missing_entry(
                f,
                entries_made(e, rows[i].key, rows[i].value->0),
                at_place(i, j),
                ekey,
            ));
        }
    }
}

/// A row's place and that of one of its entries.
pub open spec fn at_place(row: int, entry: int) -> (int, int) {
    (row, entry)
}

/// Whether an entry is the one at a place among those that a row makes, and is
/// not there.
pub open spec fn is_missing_entry<F: Fn(&Vec<u8>) -> Result<Option<Vec<u8>>, EngineError>>(
    f: F,
    made: Seq<Vec<u8>>,
    at: (int, int),
    ekey: Seq<u8>,
) -> bool {
    0 <= at.1 < made.len() && made[at.1]@ == ekey && row_of(f, made[at.1]) == Ok::<
        Option<Vec<u8>>,
        EngineError,
    >(None)
}

proof fn lemma_missing_entries<F: Fn(&Vec<u8>) -> Result<Option<Vec<u8>>, EngineError>>(
    f: F,
    made: Seq<Vec<u8>>,
    ekey: Seq<u8>,
)
    requires
        present_of(f, made, false) is Ok,
    ensures
        present_of(f, made, false)->Ok_0.contains(ekey) <==> exists|j: int|
            is_missing_entry(f, made, #[trigger] at_place(0, j), ekey),
    decreases made.len(),
{
    if made.len() > 0 {
        let init = made.drop_last();
        lemma_missing_entries(f, init, ekey);
        let before = present_of(f, init, false)->Ok_0;
        let all = present_of(f, made, false)->Ok_0;
        let last = made.len() - 1;
        if before.contains(ekey) {
            let p = before.index_of(ekey);
            assert(all[p] == ekey);
            let j = choose|j: int| is_missing_entry(f, init, #[trigger] at_place(0, j), ekey);
            assert(is_missing_entry(f, made, at_place(0, j), ekey));
        }
        if row_of(f, made.last()) == Ok::<Option<Vec<u8>>, EngineError>(None) {
            assert(all[before.len() as int] == made.last()@);
            if all.contains(ekey) && !before.contains(ekey) {
                let p = choose|p: int| 0 <= p < all.len() && all[p] == ekey;
                if p < before.len() {
                    assert(before[p] == ekey);
                }
                assert(is_missing_entry(f, made, at_place(0, last), ekey));
            }
        }
        if exists|j: int| is_missing_entry(f, made, #[trigger] at_place(0, j), ekey) {
            let j = choose|j: int| is_missing_entry(f, made, #[trigger] at_place(0, j), ekey);
            if j < last {
                assert(is_missing_entry(f, init, at_place(0, j), ekey));
            } else {
                assert(all[before.len() as int] == ekey);
            }
        }
    }
}

} // verus!
