//! Vector and full-text reads: what is checked before an index is asked, how
//! many candidates are fetched, and which hits are kept in which order.

use vstd::prelude::*;

use crate::ast::Expr;
use crate::backfill::doc_of;
use crate::backfill::is_decoder;
use crate::bytes::bytes_below;
use crate::bytes::bytes_lt;
use crate::bytes::copy_bytes;
use crate::bytes::same_bytes;
use crate::catalog::def_of;
use crate::catalog::has_def;
use crate::database::verdict;
use crate::database::Database;
use crate::database::DbView;
use crate::error::type_error;
use crate::error::unsupported;
use crate::error::unsupported_about;
use crate::error::EngineError;
use crate::error::ErrorView;
use crate::lookup::vector_index_on;
use crate::namespace::split;
use crate::namespace::split_name;
use crate::order::as_places;
use crate::order::lemma_slot_for_is;
use crate::order::places;
use crate::order::put_in;
use crate::order::stable_sorted;
use crate::point_keys::key_views;
use crate::point_keys::KeySet;
use crate::projection::NameSet;
use crate::show::add_column;
use crate::show::cell_rows;
use crate::show::cells;
use crate::show::txt;
use crate::show::Cell;
use crate::show::CellView;
use crate::show::Listing;
use crate::text::cat;
use crate::text::cat3;
use crate::text::decimal;
use crate::text::decimal_of;
use crate::text::views;
use crate::value::Value;

verus! {

/// How many times `k` candidates are fetched from a graph of rounded vectors,
/// to be scored exactly.
pub const QUANT_RESCORE_OVERSAMPLE: usize = 4;

/// A product or sum held at the largest number.
pub open spec fn held(n: int) -> int {
    if n > usize::MAX {
        usize::MAX as int
    } else {
        n
    }
}

/// How many candidates a vector search for `k` rows fetches.
pub fn vector_fetch(quantized: bool, k: usize) -> (r: usize)
    ensures
        r == (if quantized {
            held(k * 4)
        } else {
            k as int
        }),
{
    if !quantized {
        return k;
    }
    match k.checked_mul(QUANT_RESCORE_OVERSAMPLE) {
        Some(n) => n,
        None => usize::MAX,
    }
}

/// How many hits a text search for `k` rows fetches: more where a filter will
/// drop some.
pub fn search_fetch(k: usize, filtered: bool) -> (r: usize)
    ensures
        r == fetched(k, filtered),
{
    if !filtered {
        return k;
    }
    let a: usize = match k.checked_mul(4) {
        Some(n) => n,
        None => usize::MAX,
    };
    let b: usize = match k.checked_add(16) {
        Some(n) => n,
        None => usize::MAX,
    };
    if a > b {
        a
    } else {
        b
    }
}

/// Why a vector index cannot be searched, if it cannot.
pub open spec fn vector_readiness(v: DbView, index: Seq<char>) -> Result<(), ErrorView> {
    if v.building_vectors.contains(index) {
        Err(
            ErrorView::Unsupported(
                "vector index '"@ + split_name(index).1 + "' is rebuilding — retry shortly"@,
            ),
        )
    } else {
        Ok(())
    }
}

/// Why a vector search cannot run, if it cannot.
pub open spec fn vector_search_check(v: DbView, index: Seq<char>, open: bool, has_rows: bool) -> Result<
    (),
    ErrorView,
> {
    match vector_readiness(v, index) {
        Err(e) => Err(e),
        Ok(_) => if !open || !v.cat.vector_indexes.dom().contains(index) {
            Err(ErrorView::IndexNotFound(index))
        } else if !has_rows {
            Err(ErrorView::TableNotFound(v.cat.vector_indexes[index].table))
        } else {
            Ok(())
        },
    }
}

/// Why a string cannot be a `NEAREST` query, if it cannot.
pub open spec fn embed_check(db: Database, table: Seq<char>, path: Seq<char>, configured: bool) -> Result<
    (),
    ErrorView,
> {
    match vector_index_on(db.catalog.vector_indexes.entries@, table, path) {
        None => Err(ErrorView::Unsupported("no vector index on "@ + table + " ("@ + path + ")"@)),
        Some(n) => if !db@.cat.vector_indexes[n].embed {
            Err(
                ErrorView::Type(
                    "NEAREST on '"@ + path
                        + "' takes a query vector; a string query needs a managed EMBED index"@,
                ),
            )
        } else if !configured {
            Err(ErrorView::Unsupported("inference is not configured"@))
        } else {
            Ok(())
        },
    }
}

impl Database {
    /// Refuses a vector index whose rows are still being read in: a part of the
    /// graph would give wrong neighbours.
    pub fn vector_index_ready(&self, index: &str) -> (r: Result<(), EngineError>)
        requires
            self.wf(),
        ensures
            verdict(r) == vector_readiness(self@, index@),
    {
        if self.building_vectors.contains(index) {
            let (_, bare) = split(index);
            return Err(
                unsupported_about(
                    "vector index '",
                    bare.as_str(),
                    "' is rebuilding — retry shortly",
                ),
            );
        }
        Ok(())
    }

    /// What is checked before a vector search: the index is ready, open and
    /// defined, and its table's rows are here.
    pub fn check_vector_search(&self, index: &str, open: bool, has_rows: bool) -> (r: Result<
        (),
        EngineError,
    >)
        requires
            self.wf(),
        ensures
            verdict(r) == vector_search_check(self@, index@, open, has_rows),
    {
        self.vector_index_ready(index)?;
        match def_of(&self.catalog.vector_indexes, &index.to_owned()) {
            None => Err(EngineError::IndexNotFound(index.to_owned())),
            Some(d) => if !open {
                Err(EngineError::IndexNotFound(index.to_owned()))
            } else if !has_rows {
                Err(EngineError::TableNotFound(d.table.clone()))
            } else {
                Ok(())
            },
        }
    }

    /// What is checked before a string query on the column `path` is embedded.
    pub fn check_embed_query(&self, table: &str, path: &str, configured: bool) -> (r: Result<
        (),
        EngineError,
    >)
        requires
            self.wf(),
        ensures
            verdict(r) == embed_check(*self, table@, path@, configured),
    {
        let name = match self.vector_index_for(table, path) {
            None => {
                let msg = cat(cat3("no vector index on ", table, " (").as_str(), cat(path, ")").as_str());
                proof {
                    assert(msg@ =~= "no vector index on "@ + table@ + " ("@ + path@ + ")"@);
                }
                return Err(EngineError::Unsupported(msg));
            },
            Some(n) => n,
        };
        proof {
            lemma_vector_index_on(self.catalog.vector_indexes.entries@, table@, path@);
        }
        match def_of(&self.catalog.vector_indexes, &name) {
            Some(d) => {
                if !d.embed {
                    return Err(
                        EngineError::Type(
                            cat3(
                                "NEAREST on '",
                                path,
                                "' takes a query vector; a string query needs a managed EMBED index",
                            ),
                        ),
                    );
                }
            },
            None => {},
        }
        if !configured {
            return Err(unsupported("inference is not configured"));
        }
        Ok(())
    }
}

proof fn lemma_vector_index_on(
    es: Seq<(String, crate::catalog::VectorIndexDef)>,
    table: Seq<char>,
    path: Seq<char>,
)
    requires
        crate::sorted_map::ascending(es),
    ensures
        vector_index_on(es, table, path) matches Some(n) ==> crate::sorted_map::entry_map(es).dom().contains(
            n,
        ),
{
    lemma_first_vector_index(es, table, path);
    if let Some(n) = vector_index_on(es, table, path) {
        let i = choose|i: int| 0 <= i < es.len() && (#[trigger] es[i]).0@ == n;
        crate::sorted_map::lemma_entry_at(es, i);
    }
}

proof fn lemma_first_vector_index(
    es: Seq<(String, crate::catalog::VectorIndexDef)>,
    table: Seq<char>,
    path: Seq<char>,
)
    ensures
        vector_index_on(es, table, path) matches Some(n) ==> exists|i: int|
            0 <= i < es.len() && (#[trigger] es[i]).0@ == n,
    decreases es.len(),
{
    if es.len() > 0 && !(es[0].1.table@ == table && es[0].1.path@ == path) {
        let rest = es.skip(1);
        lemma_first_vector_index(rest, table, path);
        if let Some(n) = vector_index_on(rest, table, path) {
            let i = choose|i: int| 0 <= i < rest.len() && (#[trigger] rest[i]).0@ == n;
            assert(es[i + 1] == rest[i]);
        }
    }
}

/// What is checked of an embedder's answer to one text.
pub fn check_embedded(vectors: usize) -> (r: Result<(), EngineError>)
    ensures
        verdict(r) == (if vectors == 0 {
            Err::<(), ErrorView>(ErrorView::Type("embedder returned no vector"@))
        } else {
            Ok(())
        }),
{
    if vectors == 0 {
        return Err(type_error("embedder returned no vector"));
    }
    Ok(())
}

/// What is checked before documents are reranked.
pub fn check_reranker(configured: bool) -> (r: Result<(), EngineError>)
    ensures
        verdict(r) == (if configured {
            Ok::<(), ErrorView>(())
        } else {
            Err(
                ErrorView::Unsupported(
                    "RERANK needs a rerank provider ([inference] rerank_url)"@,
                ),
            )
        }),
{
    if !configured {
        return Err(unsupported("RERANK needs a rerank provider ([inference] rerank_url)"));
    }
    Ok(())
}

/// What is checked of a reranker's answer: a score for each document.
pub fn check_rerank_scores(scores: usize, documents: usize) -> (r: Result<(), EngineError>)
    ensures
        verdict(r) == (if scores == documents {
            Ok::<(), ErrorView>(())
        } else {
            Err(
                ErrorView::Type(
                    "reranker returned "@ + decimal(scores as nat) + " scores for "@ + decimal(
                        documents as nat,
                    ) + " documents"@,
                ),
            )
        }),
{
    if scores != documents {
        let a = decimal_of(scores as u64);
        let b = decimal_of(documents as u64);
        let head = cat3("reranker returned ", a.as_str(), " scores for ");
        let msg = cat3(head.as_str(), b.as_str(), " documents");
        return Err(EngineError::Type(msg));
    }
    Ok(())
}

/// A `NEAREST` query: a text to be embedded, or numbers.
pub enum QueryVector<'a> {
    Text(&'a String),
    Numbers(&'a Vec<Value>),
}

/// Whether a value is a number that a vector can hold.
pub open spec fn is_component(v: Value) -> bool {
    v is Int || v is Float
}

/// Whether values are all numbers that a vector can hold.
pub open spec fn all_components(items: Seq<Value>) -> bool {
    forall|i: int| 0 <= i < items.len() ==> is_component(#[trigger] items[i])
}

/// Whether a query is what a value stands for.
pub open spec fn is_query_vector(v: Value, r: Result<QueryVector<'_>, EngineError>) -> bool {
    match v {
        Value::String(s) => r matches Ok(QueryVector::Text(t)) && t@ == s@,
        Value::Array(items) => if all_components(items@) {
            r matches Ok(QueryVector::Numbers(n)) && n@ == items@
        } else {
            verdict(r) matches Err(e) && e == ErrorView::Type("query vector must be a numeric array"@)
        },
        _ => verdict(r) matches Err(e) && e == ErrorView::Type(
            "NEAREST query must be a numeric array, or a string for a managed EMBED index"@,
        ),
    }
}

/// The query that an evaluated `NEAREST` expression stands for.
pub fn resolve_query_vector<'a>(v: &'a Value) -> (r: Result<QueryVector<'a>, EngineError>)
    ensures
        is_query_vector(*v, r),
{
    match v {
        Value::String(s) => Ok(QueryVector::Text(s)),
        Value::Array(items) => {
            let mut i: usize = 0;
            while i < items.len()
                invariant
                    i <= items@.len(),
                    forall|k: int| 0 <= k < i ==> is_component(#[trigger] items@[k]),
                    *v == Value::Array(*items),
                decreases items@.len() - i,
            {
                match &items[i] {
                    Value::Int(_) => {},
                    Value::Float(_) => {},
                    _ => {
                        proof {
                            assert(!is_component(items@[i as int]));
                            assert(!all_components(items@));
                        }
                        return Err(type_error("query vector must be a numeric array"));
                    },
                }
                i = i + 1;
            }
            Ok(QueryVector::Numbers(items))
        },
        _ => Err(
            type_error("NEAREST query must be a numeric array, or a string for a managed EMBED index"),
        ),
    }
}

/// Whether the hit at `a` comes before the one at `b`: by rank, then by key.
pub open spec fn hit_before(ranks: Seq<i64>, keys: Seq<Vec<u8>>, a: int, b: int) -> bool {
    ranks[a] < ranks[b] || (ranks[a] == ranks[b] && bytes_lt(keys[a]@, keys[b]@))
}

/// The places of hits by ascending rank, equal ranks by key: how rescored
/// vector candidates come out by distance.
pub fn ranked_order(ranks: &Vec<i64>, keys: &Vec<Vec<u8>>) -> (r: Vec<usize>)
    requires
        ranks@.len() == keys@.len(),
    ensures
        as_places(r@) == stable_sorted(
            places(ranks@.len()),
            |a: int, b: int| hit_before(ranks@, keys@, a, b),
        ),
{
    let ghost lt = |a: int, b: int| hit_before(ranks@, keys@, a, b);
    let n: usize = ranks.len();
    let mut out: Vec<usize> = Vec::new();
    let mut x: usize = 0;
    proof {
        assert(as_places(out@) =~= stable_sorted(places(0), lt));
    }
    while x < n
        invariant
            n == ranks@.len(),
            n == keys@.len(),
            x <= n,
            lt == (|a: int, b: int| hit_before(ranks@, keys@, a, b)),
            as_places(out@) == stable_sorted(places(x as nat), lt),
            forall|i: int| 0 <= i < out@.len() ==> (#[trigger] out@[i]) < x,
        decreases n - x,
    {
        let ghost s = as_places(out@);
        let m: usize = out.len();
        let mut i: usize = 0;
        while i < m && !hit_precedes(ranks, keys, x, out[i])
            invariant
                n == ranks@.len(),
                n == keys@.len(),
                x < n,
                m == out@.len(),
                s == as_places(out@),
                i <= m,
                lt == (|a: int, b: int| hit_before(ranks@, keys@, a, b)),
                forall|i: int| 0 <= i < out@.len() ==> (#[trigger] out@[i]) < x,
                forall|j: int| 0 <= j < i ==> !lt(x as int, #[trigger] s[j]),
            decreases m - i,
        {
            proof {
                assert(s[i as int] == out@[i as int] as int);
            }
            i = i + 1;
        }
        proof {
            if i < m {
                assert(s[i as int] == out@[i as int] as int);
            }
            lemma_slot_for_is(s, x as int, lt, i as int);
        }
        out.insert(i, x);
        proof {
            assert(as_places(out@) =~= put_in(s, x as int, lt));
            let all = places((x + 1) as nat);
            assert(all.drop_last() =~= places(x as nat));
            assert(all.last() == x);
        }
        x = x + 1;
    }
    out
}

fn hit_precedes(ranks: &Vec<i64>, keys: &Vec<Vec<u8>>, a: usize, b: usize) -> (r: bool)
    requires
        ranks@.len() == keys@.len(),
        a < ranks@.len(),
        b < ranks@.len(),
    ensures
        r == hit_before(ranks@, keys@, a as int, b as int),
{
    ranks[a] < ranks[b] || (ranks[a] == ranks[b] && bytes_below(
        keys[a].as_slice(),
        keys[b].as_slice(),
    ))
}

/// A row that one or both legs of a hybrid search found: its key, and its
/// places in the legs, counted from one.
pub struct FusedHit {
    pub key: Vec<u8>,
    pub ranks: Vec<usize>,
}

pub struct FusedView {
    pub key: Seq<u8>,
    pub ranks: Seq<nat>,
}

impl View for FusedHit {
    type V = FusedView;

    open spec fn view(&self) -> FusedView {
        FusedView { key: self.key@, ranks: self.ranks@.map_values(|r: usize| r as nat) }
    }
}

/// Fused hits by what each holds.
pub open spec fn fused_views(hs: Seq<FusedHit>) -> Seq<FusedView> {
    hs.map_values(|h: FusedHit| h@)
}

/// The place of a key among fused hits, or their number.
pub open spec fn fused_place(hs: Seq<FusedView>, key: Seq<u8>) -> int
    decreases hs.len(),
{
    if hs.len() == 0 {
        0
    } else if hs[0].key == key {
        0
    } else {
        1 + fused_place(hs.skip(1), key)
    }
}

/// Fused hits with one more hit at a rank.
pub open spec fn with_hit(hs: Seq<FusedView>, key: Seq<u8>, rank: nat) -> Seq<FusedView> {
    let p = fused_place(hs, key);
    if p < hs.len() {
        hs.update(p, FusedView { key: hs[p].key, ranks: hs[p].ranks.push(rank) })
    } else {
        hs.push(FusedView { key, ranks: seq![rank] })
    }
}

/// Fused hits with all of a leg's hits.
pub open spec fn with_leg(hs: Seq<FusedView>, leg: Seq<Vec<u8>>) -> Seq<FusedView>
    decreases leg.len(),
{
    if leg.len() == 0 {
        hs
    } else {
        with_hit(with_leg(hs, leg.drop_last()), leg.last()@, leg.len())
    }
}

proof fn lemma_fused_place(hs: Seq<FusedView>, key: Seq<u8>, k: int)
    requires
        0 <= k <= hs.len(),
        forall|i: int| 0 <= i < k ==> (#[trigger] hs[i]).key != key,
        k < hs.len() ==> hs[k].key == key,
    ensures
        fused_place(hs, key) == k,
    decreases hs.len(),
{
    if hs.len() > 0 && k > 0 {
        assert(hs[0].key != key);
        let rest = hs.skip(1);
        assert forall|i: int| 0 <= i < k - 1 implies (#[trigger] rest[i]).key != key by {
            assert(rest[i] == hs[i + 1]);
        }
        if k < hs.len() {
            assert(rest[k - 1] == hs[k]);
        }
        lemma_fused_place(rest, key, k - 1);
    }
}

fn add_hit(hs: &mut Vec<FusedHit>, key: &Vec<u8>, rank: usize)
    ensures
        fused_views(final(hs)@) == with_hit(fused_views(old(hs)@), key@, rank as nat),
{
    let ghost before = fused_views(hs@);
    let mut i: usize = 0;
    while i < hs.len() && !same_bytes(hs[i].key.as_slice(), key.as_slice())
        invariant
            fused_views(hs@) == before,
            i <= hs@.len(),
            forall|k: int| 0 <= k < i ==> (#[trigger] before[k]).key != key@,
        decreases hs@.len() - i,
    {
        proof {
            assert(before[i as int] == hs@[i as int]@);
        }
        i = i + 1;
    }
    proof {
        assert(before.len() == hs@.len());
        if i < hs@.len() {
            assert(before[i as int] == hs@[i as int]@);
        }
        lemma_fused_place(before, key@, i as int);
    }
    if i < hs.len() {
        let mut h = hs.remove(i);
        let ghost ranks = h@.ranks;
        h.ranks.push(rank);
        proof {
            assert(h@.ranks =~= ranks.push(rank as nat));
        }
        hs.insert(i, h);
        proof {
            assert(fused_views(hs@) =~= with_hit(before, key@, rank as nat));
        }
    } else {
        let mut ranks: Vec<usize> = Vec::new();
        ranks.push(rank);
        let h = FusedHit { key: copy_bytes(key.as_slice()), ranks };
        proof {
            assert(h@.ranks =~= seq![rank as nat]);
        }
        hs.push(h);
        proof {
            assert(fused_views(hs@) =~= with_hit(before, key@, rank as nat));
        }
    }
}

fn add_leg(hs: &mut Vec<FusedHit>, leg: &Vec<Vec<u8>>)
    ensures
        fused_views(final(hs)@) == with_leg(fused_views(old(hs)@), leg@),
{
    let ghost start = fused_views(hs@);
    let mut i: usize = 0;
    proof {
        assert(leg@.take(0) =~= Seq::<Vec<u8>>::empty());
    }
    while i < leg.len()
        invariant
            i <= leg@.len(),
            fused_views(hs@) == with_leg(start, leg@.take(i as int)),
        decreases leg@.len() - i,
    {
        proof {
            assert(leg@.take(i + 1).drop_last() =~= leg@.take(i as int));
            assert(leg@.take(i + 1).last() == leg@[i as int]);
        }
        add_hit(hs, &leg[i], i + 1);
        i = i + 1;
    }
    proof {
        assert(leg@.take(leg@.len() as int) =~= leg@);
    }
}

/// Fuses the two legs of a hybrid search: every row that either found, in the
/// order of first sight, with the places from which its score is summed.
pub fn fuse_legs(text: &Vec<Vec<u8>>, vectors: &Vec<Vec<u8>>) -> (r: Vec<FusedHit>)
    ensures
        fused_views(r@) == with_leg(with_leg(Seq::empty(), text@), vectors@),
{
    let mut out: Vec<FusedHit> = Vec::new();
    proof {
        assert(fused_views(out@) =~= Seq::<FusedView>::empty());
    }
    add_leg(&mut out, text);
    add_leg(&mut out, vectors);
    out
}

/// Whether a key is among a leg's hits.
pub open spec fn found_by(leg: Seq<Vec<u8>>, key: Seq<u8>) -> bool {
    exists|i: int| 0 <= i < leg.len() && (#[trigger] leg[i])@ == key
}

/// Whether a key is among fused hits.
pub open spec fn fused_has(hs: Seq<FusedView>, key: Seq<u8>) -> bool {
    exists|i: int| 0 <= i < hs.len() && (#[trigger] hs[i]).key == key
}

proof fn lemma_fused_place_found(hs: Seq<FusedView>, key: Seq<u8>)
    ensures
        0 <= fused_place(hs, key) <= hs.len(),
        fused_place(hs, key) < hs.len() ==> hs[fused_place(hs, key)].key == key,
        fused_has(hs, key) ==> fused_place(hs, key) < hs.len(),
    decreases hs.len(),
{
    if hs.len() > 0 && hs[0].key != key {
        let rest = hs.skip(1);
        lemma_fused_place_found(rest, key);
        if fused_has(hs, key) {
            let i = choose|i: int| 0 <= i < hs.len() && (#[trigger] hs[i]).key == key;
            assert(rest[i - 1] == hs[i]);
        }
    }
}

/// Every row that either leg of a hybrid search found is among the fused hits,
/// and nothing else is.
pub proof fn fusion_keeps_both_legs(text: Seq<Vec<u8>>, vectors: Seq<Vec<u8>>, key: Seq<u8>)
    ensures
        fused_has(with_leg(with_leg(Seq::empty(), text), vectors), key) <==> found_by(text, key)
            || found_by(vectors, key),
{
    lemma_leg_adds(Seq::empty(), text, key);
    lemma_leg_adds(with_leg(Seq::empty(), text), vectors, key);
}

proof fn lemma_leg_adds(hs: Seq<FusedView>, leg: Seq<Vec<u8>>, key: Seq<u8>)
    ensures
        fused_has(with_leg(hs, leg), key) <==> fused_has(hs, key) || found_by(leg, key),
    decreases leg.len(),
{
    if leg.len() > 0 {
        let init = leg.drop_last();
        let b = with_leg(hs, init);
        let a = with_hit(b, leg.last()@, leg.len());
        let p = fused_place(b, leg.last()@);
        lemma_leg_adds(hs, init, key);
        lemma_fused_place_found(b, leg.last()@);
        if fused_has(a, key) {
            let i = choose|i: int| 0 <= i < a.len() && (#[trigger] a[i]).key == key;
            if i < b.len() {
                assert(b[i].key == key);
            } else {
                assert(leg[leg.len() - 1]@ == key);
            }
        }
        if fused_has(b, key) {
            let i = choose|i: int| 0 <= i < b.len() && (#[trigger] b[i]).key == key;
            assert(a[i].key == key);
        }
        if found_by(leg, key) {
            let i = choose|i: int| 0 <= i < leg.len() && (#[trigger] leg[i])@ == key;
            if i < leg.len() - 1 {
                assert(init[i]@ == key);
            } else if p < b.len() {
                assert(a[p].key == key);
            } else {
                assert(a[b.len() as int].key == key);
            }
        }
        if found_by(init, key) {
            let i = choose|i: int| 0 <= i < init.len() && (#[trigger] init[i])@ == key;
            assert(leg[i]@ == key);
        }
    }
}

/// Why a search index cannot be read, if it cannot.
pub open spec fn search_check(
    v: DbView,
    index: Seq<char>,
    table: Seq<char>,
    open: bool,
    has_rows: bool,
) -> Result<(), ErrorView> {
    if !open {
        Err(ErrorView::IndexNotFound(index))
    } else if v.building_searches.contains(index) {
        Err(
            ErrorView::Unsupported(
                "search index '"@ + split_name(index).1
                    + "' is rebuilding after restart — retry shortly"@,
            ),
        )
    } else if !has_rows {
        Err(ErrorView::TableNotFound(table))
    } else {
        Ok(())
    }
}

impl Database {
    /// What is checked before a search index is read: it is open, its startup
    /// catch-up is done, and its table's rows are here.
    pub fn check_search(&self, index: &str, table: &str, open: bool, has_rows: bool) -> (r: Result<
        (),
        EngineError,
    >)
        requires
            self.wf(),
        ensures
            verdict(r) == search_check(self@, index@, table@, open, has_rows),
    {
        if !open {
            return Err(EngineError::IndexNotFound(index.to_owned()));
        }
        if self.building_searches.contains(index) {
            let (_, bare) = split(index);
            return Err(
                unsupported_about(
                    "search index '",
                    bare.as_str(),
                    "' is rebuilding after restart — retry shortly",
                ),
            );
        }
        if !has_rows {
            return Err(EngineError::TableNotFound(table.to_owned()));
        }
        Ok(())
    }
}

/// What becomes of one hit: its row, where that is there and passes the
/// filter.
pub open spec fn row_of<D, F: Fn(&Vec<u8>) -> Result<Option<D>, EngineError>>(f: F, key: Vec<u8>) -> Result<
    Option<D>,
    EngineError,
> {
    choose|r: Result<Option<D>, EngineError>| call_ensures(f, (&key,), r)
}

/// Whether rows can be read for any key and a key always gives the same.
pub open spec fn is_row_reader<D, F: Fn(&Vec<u8>) -> Result<Option<D>, EngineError>>(f: F) -> bool {
    &&& forall|k: &Vec<u8>| call_requires(f, (k,))
    &&& forall|k: &Vec<u8>, x: Result<Option<D>, EngineError>, y: Result<Option<D>, EngineError>|
        call_ensures(f, (k,), x) && call_ensures(f, (k,), y) ==> x == y
}

/// Found rows by key, row and score.
pub open spec fn hit_rows<D, X>(out: Seq<(Vec<u8>, D, X)>) -> Seq<(Seq<u8>, D, X)> {
    out.map_values(|h: (Vec<u8>, D, X)| (h.0@, h.1, h.2))
}

/// The rows of hits with their scores, behind those got so far, until there
/// are `k`. A hit whose row is gone or does not pass is left out; a row that
/// cannot be read fails the search.
pub open spec fn resolved_hits<D, X, F: Fn(&Vec<u8>) -> Result<Option<D>, EngineError>>(
    f: F,
    hits: Seq<(Vec<u8>, X)>,
    k: Option<usize>,
    got: Seq<(Seq<u8>, D, X)>,
) -> Result<Seq<(Seq<u8>, D, X)>, EngineError>
    decreases hits.len(),
{
    if hits.len() == 0 {
        Ok(got)
    } else {
        match row_of(f, hits[0].0) {
            Err(e) => Err(e),
            Ok(None) => resolved_hits(f, hits.skip(1), k, got),
            Ok(Some(d)) => {
                let more = got.push((hits[0].0@, d, hits[0].1));
                if k matches Some(n) && more.len() >= n {
                    Ok(more)
                } else {
                    resolved_hits(f, hits.skip(1), k, more)
                }
            },
        }
    }
}

/// Reads the rows of a search's hits, best first, until there are `k` that
/// pass; all of them without a `k`.
pub fn resolve_hits<D, X, F: Fn(&Vec<u8>) -> Result<Option<D>, EngineError>>(
    hits: Vec<(Vec<u8>, X)>,
    k: Option<usize>,
    read: &F,
) -> (r: Result<Vec<(Vec<u8>, D, X)>, EngineError>)
    requires
        is_row_reader(*read),
    ensures
        match r {
            Ok(rows) => resolved_hits(*read, hits@, k, Seq::empty()) == Ok::<
                Seq<(Seq<u8>, D, X)>,
                EngineError,
            >(hit_rows(rows@)),
            Err(e) => resolved_hits(*read, hits@, k, Seq::<(Seq<u8>, D, X)>::empty()) == Err::<
                Seq<(Seq<u8>, D, X)>,
                EngineError,
            >(e),
        },
{
    let ghost all = hits@;
    let ghost want = resolved_hits(*read, all, k, Seq::<(Seq<u8>, D, X)>::empty());
    let mut out: Vec<(Vec<u8>, D, X)> = Vec::new();
    proof {
        assert(all.skip(0) =~= all);
        assert(hit_rows(out@) =~= Seq::<(Seq<u8>, D, X)>::empty());
    }
    for hit in it: hits
        invariant
            it.seq() == all,
            all == hits@,
            is_row_reader(*read),
            want == resolved_hits(*read, all, k, Seq::<(Seq<u8>, D, X)>::empty()),
            want == resolved_hits(*read, all.skip(it.index() as int), k, hit_rows(out@)),
    {
        let ghost n = it.index() as int;
        let (key, score) = hit;
        let row = read(&key);
        proof {
            assert(call_ensures(*read, (&key,), row));
            assert(all[n] == (key, score));
            assert(all.skip(n)[0] == all[n]);
            assert(all.skip(n).skip(1) =~= all.skip(n + 1));
        }
        match row {
            Err(e) => {
                return Err(e);
            },
            Ok(None) => {},
            Ok(Some(d)) => {
                let ghost before = hit_rows(out@);
                out.push((key, d, score));
                proof {
                    assert(hit_rows(out@) =~= before.push((all[n].0@, d, all[n].1)));
                    assert(hit_rows(out@).len() == out@.len());
                }
                if let Some(limit) = k {
                    if out.len() >= limit {
                        return Ok(out);
                    }
                }
            },
        }
    }
    proof {
        assert(all.skip(all.len() as int).len() == 0);
    }
    Ok(out)
}

/// How many hits a search for `k` rows asks an index for.
pub open spec fn fetched(k: usize, filtered: bool) -> int {
    if filtered {
        if held(k * 4) > held(k + 16) {
            held(k * 4)
        } else {
            held(k + 16)
        }
    } else {
        k as int
    }
}

/// Whether these are the rows of an index's answer, or its error.
pub open spec fn answers<D, X, F: Fn(&Vec<u8>) -> Result<Option<D>, EngineError>>(
    f: F,
    k: Option<usize>,
    found: Result<Vec<(Vec<u8>, X)>, EngineError>,
    r: Result<Vec<(Vec<u8>, D, X)>, EngineError>,
) -> bool {
    match found {
        Err(e) => r == Err::<Vec<(Vec<u8>, D, X)>, EngineError>(e),
        Ok(hits) => match resolved_hits(f, hits@, k, Seq::<(Seq<u8>, D, X)>::empty()) {
            Err(e) => r == Err::<Vec<(Vec<u8>, D, X)>, EngineError>(e),
            Ok(rows) => r matches Ok(got) && hit_rows(got@) == rows,
        },
    }
}

impl Database {
    /// Searches an index and reads the rows of its hits: the `k` best that pass,
    /// best first, or all of them. `search` asks the index for a number of hits, or
    /// for all, `filtered` says whether rows can be dropped, and `read` gives a row
    /// where it is there and passes.
    pub fn search_with_index<
        D,
        X,
        S: Fn(Option<usize>) -> Result<Vec<(Vec<u8>, X)>, EngineError>,
        F: Fn(&Vec<u8>) -> Result<Option<D>, EngineError>,
    >(
        &self,
        index: &str,
        table: &str,
        open: bool,
        has_rows: bool,
        k: Option<usize>,
        filtered: bool,
        search: &S,
        read: &F,
    ) -> (r: Result<Vec<(Vec<u8>, D, X)>, EngineError>)
        requires
            self.wf(),
            forall|n: Option<usize>| call_requires(*search, (n,)),
            is_row_reader(*read),
        ensures
            match search_check(self@, index@, table@, open, has_rows) {
                Err(e) => r matches Err(x) && x@ == e,
                Ok(()) => exists|n: Option<usize>, found: Result<Vec<(Vec<u8>, X)>, EngineError>|
                    #[trigger] call_ensures(*search, (n,), found) && (match k {
                        Some(k) => n matches Some(m) && m == fetched(k, filtered),
                        None => n is None,
                    }) && answers(*read, k, found, r),
            },
    {
        if let Err(e) = self.check_search(index, table, open, has_rows) {
            return Err(e);
        }
        let wanted: Option<usize> = match k {
            Some(k) => Some(search_fetch(k, filtered)),
            None => None,
        };
        let found = search(wanted);
        proof {
            assert(call_ensures(*search, (wanted,), found));
        }
        match found {
            Err(e) => Err(e),
            Ok(hits) => resolve_hits(hits, k, read),
        }
    }
}

impl Database {
    /// Searches an index in the order of a column and reads the rows of its hits:
    /// the first `k` that pass. Nothing where the index cannot serve the order. An
    /// index that is still building refuses, and gives no part of its answer.
    pub fn search_sorted_read<
        D,
        S: Fn(usize) -> Result<Option<Vec<(Vec<u8>, Value)>>, EngineError>,
        F: Fn(&Vec<u8>) -> Result<Option<D>, EngineError>,
    >(
        &self,
        index: &str,
        table: &str,
        open: bool,
        has_rows: bool,
        k: usize,
        filtered: bool,
        search: &S,
        read: &F,
    ) -> (r: Result<Option<Vec<(Vec<u8>, D, Value)>>, EngineError>)
        requires
            self.wf(),
            forall|n: usize| call_requires(*search, (n,)),
            is_row_reader(*read),
        ensures
            match search_check(self@, index@, table@, open, has_rows) {
                Err(e) => r matches Err(x) && x@ == e,
                Ok(()) => exists|n: usize, found: Result<Option<Vec<(Vec<u8>, Value)>>, EngineError>|
                    #[trigger] call_ensures(*search, (n,), found) && n == fetched(k, filtered)
                        && match found {
                        Err(e) => r == Err::<Option<Vec<(Vec<u8>, D, Value)>>, EngineError>(e),
                        Ok(None) => r == Ok::<Option<Vec<(Vec<u8>, D, Value)>>, EngineError>(None),
                        Ok(Some(hits)) => match r {
                            Err(e) => answers::<D, Value, F>(*read, Some(k), Ok(hits), Err(e)),
                            Ok(None) => false,
                            Ok(Some(rows)) => answers(*read, Some(k), Ok(hits), Ok(rows)),
                        },
                    },
            },
    {
        if let Err(e) = self.check_search(index, table, open, has_rows) {
            return Err(e);
        }
        let wanted: usize = search_fetch(k, filtered);
        let found = search(wanted);
        proof {
            assert(call_ensures(*search, (wanted,), found));
        }
        match found {
            Err(e) => Err(e),
            Ok(None) => Ok(None),
            Ok(Some(hits)) => match resolve_hits(hits, Some(k), read) {
                Err(e) => Err(e),
                Ok(rows) => Ok(Some(rows)),
            },
        }
    }
}

/// A search for at least one row gives no more than were asked for.
pub proof fn search_gives_no_more_than_asked<
    D,
    X,
    F: Fn(&Vec<u8>) -> Result<Option<D>, EngineError>,
>(f: F, hits: Seq<(Vec<u8>, X)>, n: usize, got: Seq<(Seq<u8>, D, X)>)
    requires
        got.len() < n,
    ensures
        resolved_hits(f, hits, Some(n), got) matches Ok(rows) ==> got.len() <= rows.len() <= n,
    decreases hits.len(),
{
    if hits.len() > 0 {
        match row_of(f, hits[0].0) {
            Ok(Some(d)) => {
                let more = got.push((hits[0].0@, d, hits[0].1));
                if more.len() < n {
                    search_gives_no_more_than_asked(f, hits.skip(1), n, more);
                }
            },
            Ok(None) => search_gives_no_more_than_asked(f, hits.skip(1), n, got),
            Err(_) => {},
        }
    }
}

/// The distinct keys of candidates, in the order of first sight.
pub open spec fn first_seen(keys: Seq<Vec<u8>>) -> Seq<Seq<u8>>
    decreases keys.len(),
{
    if keys.len() == 0 {
        Seq::empty()
    } else {
        let before = first_seen(keys.drop_last());
        if before.contains(keys.last()@) {
            before
        } else {
            before.push(keys.last()@)
        }
    }
}

/// The rows that several index ranges name, each once: a row that two ranges
/// name is read once.
pub fn distinct_candidates(keys: &Vec<Vec<u8>>) -> (r: Vec<Vec<u8>>)
    ensures
        key_views(r@) == first_seen(keys@),
{
    let mut seen = KeySet::new();
    let mut out: Vec<Vec<u8>> = Vec::new();
    let mut i: usize = 0;
    proof {
        assert(keys@.take(0) =~= Seq::<Vec<u8>>::empty());
        assert(key_views(out@) =~= Seq::<Seq<u8>>::empty());
    }
    while i < keys.len()
        invariant
            seen.wf(),
            i <= keys@.len(),
            key_views(out@) == first_seen(keys@.take(i as int)),
            forall|k: Seq<u8>| #[trigger] seen@.contains(k) <==> key_views(out@).contains(k),
        decreases keys@.len() - i,
    {
        proof {
            assert(keys@.take(i + 1).drop_last() =~= keys@.take(i as int));
            assert(keys@.take(i + 1).last() == keys@[i as int]);
        }
        let ghost before = key_views(out@);
        if seen.add_key(copy_bytes(keys[i].as_slice())) {
            out.push(copy_bytes(keys[i].as_slice()));
            proof {
                assert(key_views(out@) =~= before.push(keys@[i as int]@));
            }
        }
        proof {
            let ghost now = key_views(out@);
            let x = keys@[i as int]@;
            assert forall|k: Seq<u8>| #[trigger] seen@.contains(k) <==> now.contains(k) by {
                if before.contains(k) {
                    let p = choose|p: int| 0 <= p < before.len() && before[p] == k;
                    assert(now[p] == k);
                }
                if k == x && !before.contains(x) {
                    assert(now[before.len() as int] == k);
                }
                if now.contains(k) {
                    let p = choose|p: int| 0 <= p < now.len() && now[p] == k;
                    if p < before.len() {
                        assert(before[p] == k);
                    }
                }
            }
        }
        i = i + 1;
    }
    proof {
        assert(keys@.take(keys@.len() as int) =~= keys@);
    }
    out
}

/// Whether pending index writes are due to become searchable: there are some,
/// and the refresh interval has passed since the last commit.
pub fn refresh_due(dirty: bool, elapsed_ms: u64, refresh_ms: u64) -> (r: bool)
    ensures
        r == (dirty && elapsed_ms >= refresh_ms),
{
    dirty && elapsed_ms >= refresh_ms
}

/// The field of a row that holds the snippet of a column.
pub fn highlight_field(column: &str) -> (r: String)
    ensures
        r@ == "_highlight_"@ + column@,
{
    cat("_highlight_", column)
}

/// The type of a search-indexed column.
#[derive(Clone, Copy, Debug, PartialEq, Eq, Structural)]
pub enum FieldKind {
    Text,
    Keyword,
    Long,
    Double,
    Bool,
    Date,
}

/// The name of a column's type.
pub open spec fn kind_name(k: FieldKind) -> Seq<char> {
    match k {
        FieldKind::Text => "text"@,
        FieldKind::Keyword => "keyword"@,
        FieldKind::Long => "long"@,
        FieldKind::Double => "double"@,
        FieldKind::Bool => "boolean"@,
        FieldKind::Date => "date"@,
    }
}

/// Columns with their types' names.
pub open spec fn field_names(fields: Seq<(String, FieldKind)>) -> Seq<(Seq<char>, Seq<char>)> {
    fields.map_values(|f: (String, FieldKind)| (f.0@, kind_name(f.1)))
}

/// The declared columns of a search index with their types' names.
pub fn search_index_fields(fields: &Vec<(String, FieldKind)>) -> (r: Vec<(String, String)>)
    ensures
        crate::catalog::option_views(r@) == field_names(fields@),
{
    let mut out: Vec<(String, String)> = Vec::new();
    let mut i: usize = 0;
    while i < fields.len()
        invariant
            i <= fields@.len(),
            out@.len() == i,
            forall|k: int|
                0 <= k < i ==> (#[trigger] out@[k]).0@ == fields@[k].0@ && out@[k].1@ == kind_name(
                    fields@[k].1,
                ),
        decreases fields@.len() - i,
    {
        let name = match fields[i].1 {
            FieldKind::Text => "text",
            FieldKind::Keyword => "keyword",
            FieldKind::Long => "long",
            FieldKind::Double => "double",
            FieldKind::Bool => "boolean",
            FieldKind::Date => "date",
        };
        out.push((fields[i].0.clone(), name.to_owned()));
        i = i + 1;
    }
    proof {
        assert(crate::catalog::option_views(out@) =~= field_names(fields@));
    }
    out
}

/// Whether a column holds text.
pub open spec fn is_texty(k: FieldKind) -> bool {
    k == FieldKind::Text || k == FieldKind::Keyword
}

/// The columns of an index that hold text.
pub open spec fn texty_columns(fields: Seq<(String, FieldKind)>) -> Seq<Seq<char>>
    decreases fields.len(),
{
    if fields.len() == 0 {
        Seq::empty()
    } else if is_texty(fields.last().1) {
        texty_columns(fields.drop_last()).push(fields.last().0@)
    } else {
        texty_columns(fields.drop_last())
    }
}

/// The column that `SUGGEST` reads: the one asked for, or the only one that
/// holds text.
pub open spec fn suggested_column(column: Option<Seq<char>>, fields: Seq<(String, FieldKind)>) -> Result<
    Seq<char>,
    ErrorView,
> {
    match column {
        Some(c) => Ok(c),
        None => {
            let cols = texty_columns(fields);
            if cols.len() == 1 {
                Ok(cols[0])
            } else {
                Err(
                    ErrorView::Type(
                        "SUGGEST needs COLUMN <col> when the index covers several text columns"@,
                    ),
                )
            }
        },
    }
}

/// The column that `SUGGEST` reads.
pub fn suggest_column(column: Option<&str>, fields: &Vec<(String, FieldKind)>) -> (r: Result<
    String,
    EngineError,
>)
    ensures
        match r {
            Ok(c) => suggested_column(crate::show::scope_view(column), fields@) == Ok::<
                Seq<char>,
                ErrorView,
            >(c@),
            Err(e) => suggested_column(crate::show::scope_view(column), fields@) == Err::<
                Seq<char>,
                ErrorView,
            >(e@),
        },
{
    if let Some(c) = column {
        return Ok(c.to_owned());
    }
    let mut cols: Vec<String> = Vec::new();
    let mut i: usize = 0;
    proof {
        assert(fields@.take(0) =~= Seq::<(String, FieldKind)>::empty());
        assert(views(cols@) =~= Seq::<Seq<char>>::empty());
    }
    while i < fields.len()
        invariant
            i <= fields@.len(),
            views(cols@) == texty_columns(fields@.take(i as int)),
        decreases fields@.len() - i,
    {
        proof {
            assert(fields@.take(i + 1).drop_last() =~= fields@.take(i as int));
            assert(fields@.take(i + 1).last() == fields@[i as int]);
        }
        let kind = fields[i].1;
        if kind == FieldKind::Text || kind == FieldKind::Keyword {
            let ghost before = views(cols@);
            cols.push(fields[i].0.clone());
            proof {
                assert(views(cols@) =~= before.push(fields@[i as int].0@));
            }
        }
        i = i + 1;
    }
    proof {
        assert(fields@.take(fields@.len() as int) =~= fields@);
        assert(views(cols@).len() == cols@.len());
    }
    if cols.len() == 1 {
        proof {
            assert(views(cols@)[0] == cols@[0]@);
        }
        return Ok(cols[0].clone());
    }
    Err(type_error("SUGGEST needs COLUMN <col> when the index covers several text columns"))
}

/// A suggested term.
pub struct Suggestion {
    pub input: String,
    pub term: String,
    pub distance: u32,
    pub doc_freq: u64,
}

/// The row of a suggestion.
pub open spec fn suggestion_row(s: Suggestion) -> Seq<CellView> {
    seq![
        txt(s.input@),
        txt(s.term@),
        CellView::Int(s.distance as i64),
        CellView::Int(s.doc_freq as i64),
    ]
}

/// Suggestions as `SUGGEST` shows them.
pub fn suggestion_rows(list: &Vec<Suggestion>) -> (r: Listing)
    ensures
        views(r.columns@) == seq!["input"@, "suggestion"@, "distance"@, "doc_freq"@],
        cell_rows(r.rows@) == list@.map_values(|s: Suggestion| suggestion_row(s)),
{
    let mut rows: Vec<Vec<Cell>> = Vec::new();
    let mut i: usize = 0;
    while i < list.len()
        invariant
            i <= list@.len(),
            rows@.len() == i,
            forall|k: int| 0 <= k < i ==> cells((#[trigger] rows@[k])@) == suggestion_row(list@[k]),
        decreases list@.len() - i,
    {
        let s = &list[i];
        let mut row: Vec<Cell> = Vec::new();
        row.push(Cell::Text(s.input.clone()));
        row.push(Cell::Text(s.term.clone()));
        row.push(Cell::Int(s.distance as i64));
        row.push(Cell::Int(s.doc_freq as i64));
        proof {
            assert(cells(row@) =~= suggestion_row(list@[i as int]));
        }
        rows.push(row);
        i = i + 1;
    }
    let mut columns: Vec<String> = Vec::new();
    proof {
        assert(views(columns@) =~= Seq::<Seq<char>>::empty());
        assert(cell_rows(rows@) =~= list@.map_values(|s: Suggestion| suggestion_row(s)));
    }
    add_column(&mut columns, "input");
    add_column(&mut columns, "suggestion");
    add_column(&mut columns, "distance");
    add_column(&mut columns, "doc_freq");
    proof {
        assert(views(columns@) =~= seq!["input"@, "suggestion"@, "distance"@, "doc_freq"@]);
    }
    Listing { columns, rows }
}

impl Database {
    /// `SUGGEST`: suggestions for the words of `text` from an index's terms at a
    /// column, by default its only text column. `open` says whether the index
    /// is open, `fields` are its declared columns, and `suggest` asks the index.
    pub fn suggest_cmd<S: Fn(&String, &str, u64) -> Result<Vec<Suggestion>, EngineError>>(
        &self,
        index: &str,
        open: bool,
        text: &str,
        column: Option<&str>,
        fields: &Vec<(String, FieldKind)>,
        limit: u64,
        suggest: &S,
    ) -> (r: Result<Listing, EngineError>)
        requires
            self.wf(),
            forall|c: &String, t: &str, n: u64| call_requires(*suggest, (c, t, n)),
        ensures
            if !open || !self@.cat.search_indexes.dom().contains(index@) {
                r matches Err(e) && e@ == ErrorView::IndexNotFound(index@)
            } else {
                match suggested_column(crate::show::scope_view(column), fields@) {
                    Err(e) => r matches Err(x) && x@ == e,
                    Ok(c) => exists|col: String, found: Result<Vec<Suggestion>, EngineError>|
                        #[trigger] call_ensures(*suggest, (&col, text, limit), found) && col@ == c
                            && match found {
                            Err(e) => r == Err::<Listing, EngineError>(e),
                            Ok(list) => r matches Ok(l) && views(l.columns@) == seq![
                                "input"@,
                                "suggestion"@,
                                "distance"@,
                                "doc_freq"@,
                            ] && cell_rows(l.rows@) == list@.map_values(
                                |s: Suggestion| suggestion_row(s),
                            ),
                        },
                }
            },
    {
        if !open || !self.catalog.search_indexes.contains(&index.to_owned()) {
            return Err(EngineError::IndexNotFound(index.to_owned()));
        }
        let col = match suggest_column(column, fields) {
            Err(e) => {
                return Err(e);
            },
            Ok(c) => c,
        };
        let found = suggest(&col, text, limit);
        proof {
            assert(call_ensures(*suggest, (&col, text, limit), found));
        }
        match found {
            Err(e) => Err(e),
            Ok(list) => Ok(suggestion_rows(&list)),
        }
    }
}

/// The rows of `EXPLAIN SCORE`: the explanation, or none for a row that does
/// not match.
pub fn explain_score_rows(text: Option<String>) -> (r: Listing)
    ensures
        views(r.columns@) == seq!["explanation"@],
        cell_rows(r.rows@) == (match text {
            Some(t) => seq![seq![txt(t@)]],
            None => Seq::empty(),
        }),
{
    let mut columns: Vec<String> = Vec::new();
    proof {
        assert(views(columns@) =~= Seq::<Seq<char>>::empty());
    }
    add_column(&mut columns, "explanation");
    proof {
        assert(views(columns@) =~= seq!["explanation"@]);
    }
    let mut rows: Vec<Vec<Cell>> = Vec::new();
    match text {
        Some(t) => {
            let ghost shown = t@;
            let mut row: Vec<Cell> = Vec::new();
            row.push(Cell::Text(t));
            proof {
                assert(cells(row@) =~= seq![txt(shown)]);
            }
            rows.push(row);
            proof {
                assert(cell_rows(rows@) =~= seq![seq![txt(shown)]]);
            }
        },
        None => {
            proof {
                assert(cell_rows(rows@) =~= Seq::<Seq<CellView>>::empty());
            }
        },
    }
    Listing { columns, rows }
}

/// The names of a list that are not in a set.
pub open spec fn outside_of(names: Seq<String>, set: Set<Seq<char>>) -> Seq<Seq<char>>
    decreases names.len(),
{
    if names.len() == 0 {
        Seq::empty()
    } else if set.contains(names.last()@) {
        outside_of(names.drop_last(), set)
    } else {
        outside_of(names.drop_last(), set).push(names.last()@)
    }
}

impl Database {
    /// Of the vector indexes that changed since their last snapshot, those to
    /// save now: one that is still being filled would be saved as if it were
    /// whole.
    pub fn snapshots_due(&self, dirty: &Vec<String>) -> (r: Vec<String>)
        requires
            self.wf(),
        ensures
            views(r@) == outside_of(dirty@, self@.building_vectors),
    {
        let mut out: Vec<String> = Vec::new();
        let mut i: usize = 0;
        proof {
            assert(dirty@.take(0) =~= Seq::<String>::empty());
            assert(views(out@) =~= Seq::<Seq<char>>::empty());
        }
        while i < dirty.len()
            invariant
                self.wf(),
                i <= dirty@.len(),
                views(out@) == outside_of(dirty@.take(i as int), self@.building_vectors),
            decreases dirty@.len() - i,
        {
            proof {
                assert(dirty@.take(i + 1).drop_last() =~= dirty@.take(i as int));
                assert(dirty@.take(i + 1).last() == dirty@[i as int]);
            }
            if !self.building_vectors.contains(dirty[i].as_str()) {
                let ghost before = views(out@);
                out.push(dirty[i].clone());
                proof {
                    assert(views(out@) =~= before.push(dirty@[i as int]@));
                }
            }
            i = i + 1;
        }
        proof {
            assert(dirty@.take(dirty@.len() as int) =~= dirty@);
        }
        out
    }

    /// Whether a vector index has changes that a snapshot is owed for.
    pub fn has_dirty_vector_indexes(&self, dirty: &Vec<String>) -> (r: bool)
        requires
            self.wf(),
        ensures
            r == (outside_of(dirty@, self@.building_vectors).len() > 0),
    {
        let due = self.snapshots_due(dirty);
        proof {
            assert(views(due@).len() == due@.len());
        }
        due.len() > 0
    }

    /// Whether a search index is defined but not open, so that it has to be
    /// built anew from its definition.
    pub fn heals_search_index(&self, name: &str, open: &NameSet) -> (r: bool)
        requires
            self.wf(),
            open.wf(),
        ensures
            r == (self@.cat.search_indexes.dom().contains(name@) && !open@.contains(name@)),
    {
        has_def(&self.catalog.search_indexes, &name.to_owned()) && !open.contains(name)
    }
}

/// What a filter was decided to say of a document.
pub open spec fn filter_says<D, P: Fn(&Expr, &D) -> Result<bool, EngineError>>(
    decide: P,
    e: Expr,
    d: D,
) -> Result<bool, EngineError> {
    choose|r: Result<bool, EngineError>| call_ensures(decide, (&e, &d), r)
}

/// Whether a function decides filters of documents, always the same way.
pub open spec fn is_filter_test<D, P: Fn(&Expr, &D) -> Result<bool, EngineError>>(decide: P) -> bool {
    &&& forall|e: &Expr, d: &D| call_requires(decide, (e, d))
    &&& forall|e: &Expr, d: &D, a: Result<bool, EngineError>, b: Result<bool, EngineError>|
        call_ensures(decide, (e, d), a) && call_ensures(decide, (e, d), b) ==> a == b
}

/// The document of a candidate that is taken: its row is there and passes the
/// filter. A filter that cannot be decided is not passed.
pub open spec fn candidate<
    D,
    F: Fn(&Vec<u8>) -> Option<D>,
    P: Fn(&Expr, &D) -> Result<bool, EngineError>,
>(read: F, filter: Option<Expr>, decide: P, key: Vec<u8>) -> Option<D> {
    match doc_of(read, key) {
        None => None,
        Some(d) => match filter {
            None => Some(d),
            Some(e) => if filter_says(decide, e, d) == Ok::<bool, EngineError>(true) {
                Some(d)
            } else {
                None
            },
        },
    }
}

/// The document of a candidate that is taken: what a vector index asks of each
/// key that it comes by.
pub fn take_candidate<
    D,
    F: Fn(&Vec<u8>) -> Option<D>,
    P: Fn(&Expr, &D) -> Result<bool, EngineError>,
>(read: &F, filter: &Option<Expr>, decide: &P, key: &Vec<u8>) -> (r: Option<D>)
    requires
        is_decoder::<D, F>(*read),
        is_filter_test::<D, P>(*decide),
    ensures
        r == candidate(*read, *filter, *decide, *key),
{
    let found = read(key);
    proof {
        assert(call_ensures(*read, (key,), found));
        assert(doc_of(*read, *key) == found);
    }
    match found {
        None => None,
        Some(d) => match filter {
            None => Some(d),
            Some(e) => {
                let says = decide(e, &d);
                proof {
                    assert(call_ensures(*decide, (e, &d), says));
                    assert(filter_says(*decide, *e, d) == says);
                }
                match says {
                    Ok(true) => Some(d),
                    _ => None,
                }
            },
        },
    }
}

/// The candidates that are taken, with their documents and distances.
pub open spec fn candidates<
    D,
    F: Fn(&Vec<u8>) -> Option<D>,
    P: Fn(&Expr, &D) -> Result<bool, EngineError>,
>(read: F, filter: Option<Expr>, decide: P, hits: Seq<(Vec<u8>, i64)>) -> Seq<(Vec<u8>, D, i64)>
    decreases hits.len(),
{
    if hits.len() == 0 {
        Seq::empty()
    } else {
        let before = candidates(read, filter, decide, hits.drop_last());
        match candidate(read, filter, decide, hits.last().0) {
            None => before,
            Some(d) => before.push((hits.last().0, d, hits.last().1)),
        }
    }
}

/// The exact distance of a document, where it has one.
pub open spec fn exact_of<D, R: Fn(&D) -> Option<i64>>(exact: R, d: D) -> Option<i64> {
    choose|r: Option<i64>| call_ensures(exact, (&d,), r)
}

/// Whether a function gives the exact distances of documents, always the same.
pub open spec fn is_distance<D, R: Fn(&D) -> Option<i64>>(exact: R) -> bool {
    &&& forall|d: &D| call_requires(exact, (d,))
    &&& forall|d: &D, a: Option<i64>, b: Option<i64>|
        call_ensures(exact, (d,), a) && call_ensures(exact, (d,), b) ==> a == b
}

/// A row with its exact distance; one that has none keeps the one it had.
pub open spec fn rescored<D, R: Fn(&D) -> Option<i64>>(exact: R, x: (Vec<u8>, D, i64)) -> (
    Vec<u8>,
    D,
    i64,
) {
    match exact_of(exact, x.1) {
        Some(n) => (x.0, x.1, n),
        None => x,
    }
}

/// Whether a row is closer than another: by distance, then by key.
pub open spec fn closer<D>(a: (Vec<u8>, D, i64), b: (Vec<u8>, D, i64)) -> bool {
    a.2 < b.2 || (a.2 == b.2 && bytes_lt(a.0@, b.0@))
}

/// The `k` closest of some rows by their exact distances, closest first.
pub open spec fn closest<D, R: Fn(&D) -> Option<i64>>(
    exact: R,
    rows: Seq<(Vec<u8>, D, i64)>,
    k: usize,
) -> Seq<(Vec<u8>, D, i64)> {
    let sorted = stable_sorted(
        rows.map_values(|x: (Vec<u8>, D, i64)| rescored(exact, x)),
        |a: (Vec<u8>, D, i64), b: (Vec<u8>, D, i64)| closer(a, b),
    );
    if sorted.len() <= k {
        sorted
    } else {
        sorted.take(k as int)
    }
}

fn rescore_hits<D, R: Fn(&D) -> Option<i64>>(
    rows: Vec<(Vec<u8>, D, i64)>,
    k: usize,
    exact: &R,
) -> (r: Vec<(Vec<u8>, D, i64)>)
    requires
        is_distance::<D, R>(*exact),
    ensures
        r@ == closest(*exact, rows@, k),
{
    let ghost lt = |a: (Vec<u8>, D, i64), b: (Vec<u8>, D, i64)| closer(a, b);
    let ghost f = |x: (Vec<u8>, D, i64)| rescored(*exact, x);
    let ghost start = rows@;
    let ghost all = start.map_values(f);
    let mut out: Vec<(Vec<u8>, D, i64)> = Vec::new();
    proof {
        assert(all.take(0) =~= Seq::<(Vec<u8>, D, i64)>::empty());
        assert(out@ =~= Seq::<(Vec<u8>, D, i64)>::empty());
    }
    for row in it: rows
        invariant
            is_distance::<D, R>(*exact),
            lt == (|a: (Vec<u8>, D, i64), b: (Vec<u8>, D, i64)| closer(a, b)),
            f == (|x: (Vec<u8>, D, i64)| rescored(*exact, x)),
            it.seq() == start,
            all == start.map_values(f),
            out@ == stable_sorted(all.take(it.index() as int), lt),
    {
        let ghost done = it.index() as int;
        proof {
            assert(row == start[done]);
        }
        let (key, d, approximate) = row;
        let found = exact(&d);
        proof {
            assert(call_ensures(*exact, (&d,), found));
            assert(exact_of(*exact, d) == found);
        }
        let distance: i64 = match found {
            Some(n) => n,
            None => approximate,
        };
        let x = (key, d, distance);
        proof {
            assert(x == f(start[done]));
            assert(all[done] == x);
            assert(all.take(done + 1).drop_last() =~= all.take(done));
            assert(all.take(done + 1).last() == x);
        }
        let mut i: usize = 0;
        while i < out.len() && !(x.2 < out[i].2 || (x.2 == out[i].2 && bytes_below(
            x.0.as_slice(),
            out[i].0.as_slice(),
        )))
            invariant
                lt == (|a: (Vec<u8>, D, i64), b: (Vec<u8>, D, i64)| closer(a, b)),
                i <= out@.len(),
                forall|j: int| 0 <= j < i ==> !lt(x, #[trigger] out@[j]),
            decreases out@.len() - i,
        {
            i = i + 1;
        }
        proof {
            lemma_slot_for_is(out@, x, lt, i as int);
        }
        out.insert(i, x);
    }
    proof {
        assert(all.take(all.len() as int) =~= all);
    }
    if out.len() > k {
        out.truncate(k);
    }
    out
}

impl Database {
    /// The `k` rows nearest to a query by a vector index, each with its distance
    /// as a number that orders like it. `search` gives the index's nearest keys,
    /// as many as are asked for, of those that `take_candidate` takes. A graph
    /// of rounded vectors is asked for more, and the rows are put in order by
    /// their `exact` distances.
    pub fn vector_search<
        D,
        S: Fn(usize) -> Vec<(Vec<u8>, i64)>,
        F: Fn(&Vec<u8>) -> Option<D>,
        P: Fn(&Expr, &D) -> Result<bool, EngineError>,
        R: Fn(&D) -> Option<i64>,
    >(
        &self,
        index: &str,
        open: bool,
        has_rows: bool,
        k: usize,
        filter: &Option<Expr>,
        search: &S,
        read: &F,
        decide: &P,
        exact: &R,
    ) -> (r: Result<Vec<(Vec<u8>, D, i64)>, EngineError>)
        requires
            self.wf(),
            forall|n: usize| call_requires(*search, (n,)),
            is_decoder::<D, F>(*read),
            is_filter_test::<D, P>(*decide),
            is_distance::<D, R>(*exact),
        ensures
            match vector_search_check(self@, index@, open, has_rows) {
                Err(e) => r matches Err(x) && x@ == e,
                Ok(()) => exists|n: usize, found: Vec<(Vec<u8>, i64)>| #[trigger]
                    call_ensures(*search, (n,), found) && {
                        let got = candidates(*read, *filter, *decide, found@);
                        if self@.cat.vector_indexes[index@].quantized {
                            n == held(k * 4) && (r matches Ok(rows) && rows@ == closest(*exact, got, k))
                        } else {
                            n == k && (r matches Ok(rows) && rows@ == got)
                        }
                    },
            },
    {
        if let Err(e) = self.check_vector_search(index, open, has_rows) {
            return Err(e);
        }
        let quantized: bool = match def_of(&self.catalog.vector_indexes, &index.to_owned()) {
            Some(d) => d.quantized,
            None => false,
        };
        let fetch: usize = vector_fetch(quantized, k);
        let hits = search(fetch);
        let ghost found = hits@;
        let ghost answer = hits;
        proof {
            assert(call_ensures(*search, (fetch,), answer));
            assert(found.take(0) =~= Seq::<(Vec<u8>, i64)>::empty());
        }
        let mut out: Vec<(Vec<u8>, D, i64)> = Vec::new();
        for hit in it: hits
            invariant
                is_decoder::<D, F>(*read),
                is_filter_test::<D, P>(*decide),
                it.seq() == found,
                out@ == candidates(*read, *filter, *decide, found.take(it.index() as int)),
        {
            let ghost done = it.index() as int;
            proof {
                assert(hit == found[done]);
                assert(found.take(done + 1).drop_last() =~= found.take(done));
                assert(found.take(done + 1).last() == found[done]);
            }
            let (key, distance) = hit;
            if let Some(d) = take_candidate(read, filter, decide, &key) {
                out.push((key, d, distance));
            }
        }
        proof {
            assert(found.take(found.len() as int) =~= found);
        }
        if quantized {
            Ok(rescore_hits(out, k, exact))
        } else {
            Ok(out)
        }
    }
}

} // verus!
