//! Nearest-neighbour queries, and those fused with a full-text search, carried
//! out against a cluster that can search vectors.

use vstd::prelude::*;

use crate::ast::AggFunc;
use crate::ast::AggArg;
use crate::aggregate::AggOutcome;
use crate::ast::Expr;
use crate::ast::Nearest;
use crate::ast::Select;
use crate::bytes::bytes_lt;
use crate::bytes::copy_bytes;
use crate::bytes::same_bytes;
use crate::constraints::pointees;
use crate::error::EngineError;
use crate::error::unsupported;
use crate::error::ErrorView;
use crate::execute::evaluate;
use crate::execute::evaluated;
use crate::execute::is_evaluator;
use crate::executor::result_is;
use crate::executor::show;
use crate::executor::shown;
use crate::executor::sound;
use crate::executor::Semantics;
use crate::grouping::all_docs;
use crate::highlight::req_views;
use crate::highlight::HighlightReq;
use crate::highlight::ReqView;
use crate::hits::all_components;
use crate::hits::found_by;
use crate::hits::fuse_legs;
use crate::hits::fused_has;
use crate::hits::fused_views;
use crate::hits::fusion_keeps_both_legs;
use crate::hits::hit_before;
use crate::hits::ranked_order;
use crate::hits::resolve_query_vector;
use crate::hits::with_leg;
use crate::hits::FusedHit;
use crate::hits::FusedView;
use crate::hits::QueryVector;
use crate::model::copy_document;
use crate::model::copy_value;
use crate::model::doc_view;
use crate::model::doc_wf;
use crate::model::value_view;
use crate::model::value_wf;
use crate::model::Fields;
use crate::order::as_places;
use crate::order::first_few;
use crate::order::lemma_slot_for;
use crate::order::lemma_slot_for_is;
use crate::order::places;
use crate::order::slot_for;
use crate::order::stable_sorted;
use crate::order::Rank;
use crate::projection::NameSet;
use crate::results::docs_wf;
use crate::results::ResultSet;
use crate::results::ResultView;
use crate::search::QueryView;
use crate::search_exec::apply_rerank;
use crate::search_exec::hits_wf;
use crate::search_exec::reranked;
use crate::search_exec::scores_soundly;
use crate::search_exec::Ask;
use crate::search_exec::Hit;
use crate::search_exec::Scoring;
use crate::search_exec::SearchCluster;
use crate::search_plan::hybrid_plan;
use crate::search_plan::nearest_k;
use crate::search_plan::plan_hybrid_select;
use crate::select_plan::check_nearest;
use crate::select_plan::nearest_refusal;
use crate::value::Document;
use crate::value::Value;

verus! {

/// A cluster whose vectors can be searched. A component of a vector is held by
/// its IEEE-754 bits.
pub trait VectorCluster: SearchCluster {
    /// The vector that a managed index gives a text.
    open spec fn vector_of(&self, table: Seq<char>, path: Seq<char>, text: Seq<char>) -> Result<
        Seq<u32>,
        EngineError,
    > {
        Ok(Seq::empty())
    }

    /// The rows whose vectors are nearest to a query, nearest first, each with
    /// its distance.
    open spec fn neighbours_of(
        &self,
        table: Seq<char>,
        path: Seq<char>,
        query: Seq<u32>,
        k: u64,
        filter: Seq<Expr>,
    ) -> Result<Seq<Hit>, EngineError> {
        Ok(Seq::empty())
    }

    /// Embeds a text for the managed index on a path.
    fn embed_query(&self, table: &str, path: &str, text: &str) -> (r: Result<Vec<u32>, EngineError>)
        ensures
            match r {
                Ok(v) => self.vector_of(table@, path@, text@) == Ok::<Seq<u32>, EngineError>(v@),
                Err(e) => self.vector_of(table@, path@, text@) == Err::<Seq<u32>, EngineError>(e),
            },
    ;

    /// Searches the vectors at a path.
    fn vector_search(
        &self,
        table: &str,
        path: &str,
        query: &Vec<u32>,
        k: u64,
        filter: &Vec<&Expr>,
    ) -> (r: Result<Vec<Hit>, EngineError>)
        ensures
            match r {
                Ok(hits) => self.neighbours_of(table@, path@, query@, k, pointees(filter@)) == Ok::<
                    Seq<Hit>,
                    EngineError,
                >(hits@) && hits_wf(hits@),
                Err(e) => self.neighbours_of(table@, path@, query@, k, pointees(filter@)) == Err::<
                    Seq<Hit>,
                    EngineError,
                >(e),
            },
    ;
}

/// How numbers become components of a vector, and how the places of a row in
/// ranked lists become its fused score: a rank, smaller for better, and the
/// score.
pub struct Fusing<N, W> {
    pub narrow: N,
    pub fuse: W,
}

/// The component that a number becomes.
pub open spec fn component<N: Fn(&Value) -> u32>(n: N, v: Value) -> u32 {
    choose|b: u32| call_ensures(n, (&v,), b)
}

/// Whether a fused score was given for places in ranked lists.
pub open spec fn fuses<W: Fn(u32, &Vec<usize>) -> (i64, Value)>(
    w: W,
    constant: u32,
    ranks: Seq<nat>,
    r: (i64, Value),
) -> bool {
    exists|v: Vec<usize>|
        v@.map_values(|x: usize| x as nat) == ranks && #[trigger] call_ensures(
            w,
            (constant, &v),
            r,
        )
}

/// The fused score of places in ranked lists.
pub open spec fn fused_score<W: Fn(u32, &Vec<usize>) -> (i64, Value)>(
    w: W,
    constant: u32,
    ranks: Seq<nat>,
) -> (i64, Value) {
    choose|r: (i64, Value)| fuses(w, constant, ranks, r)
}

/// Whether each of them always answers the same.
pub open spec fn fuses_soundly<
    N: Fn(&Value) -> u32,
    W: Fn(u32, &Vec<usize>) -> (i64, Value),
>(v: Fusing<N, W>) -> bool {
    &&& forall|x: &Value| call_requires(v.narrow, (x,))
    &&& forall|x: &Value, a: u32, b: u32|
        call_ensures(v.narrow, (x,), a) && call_ensures(v.narrow, (x,), b) ==> a == b
    &&& forall|c: u32, r: &Vec<usize>| call_requires(v.fuse, (c, r))
    &&& forall|c: u32, r: &Vec<usize>, q: &Vec<usize>, a: (i64, Value), b: (i64, Value)|
        #![trigger call_ensures(v.fuse, (c, r), a), call_ensures(v.fuse, (c, q), b)]
        r@.map_values(|x: usize| x as nat) == q@.map_values(|x: usize| x as nat) && call_ensures(
            v.fuse,
            (c, r),
            a,
        ) && call_ensures(v.fuse, (c, q), b) ==> a == b
    &&& forall|c: u32, r: &Vec<usize>, a: (i64, Value)| #[trigger]
        call_ensures(v.fuse, (c, r), a) ==> value_wf(a.1)
}

/// The vector that an evaluated `NEAREST` query stands for.
pub open spec fn query_vector<C: VectorCluster, N: Fn(&Value) -> u32>(
    c: C,
    n: N,
    table: Seq<char>,
    path: Seq<char>,
    v: Value,
) -> Result<Seq<u32>, ErrorView> {
    match v {
        Value::String(t) => match c.vector_of(table, path, t@) {
            Err(e) => Err(e@),
            Ok(x) => Ok(x),
        },
        Value::Array(items) => if all_components(items@) {
            Ok(items@.map_values(|x: Value| component(n, x)))
        } else {
            Err(ErrorView::Type("query vector must be a numeric array"@))
        },
        _ => Err(
            ErrorView::Type(
                "NEAREST query must be a numeric array, or a string for a managed EMBED index"@,
            ),
        ),
    }
}

/// The vector and the number of neighbours that a `NEAREST` clause asks for.
pub open spec fn nearest_ask<
    C: VectorCluster,
    F: Fn(&Expr, &Document) -> Result<Value, EngineError>,
    N: Fn(&Value) -> u32,
>(c: C, f: F, n: N, table: Seq<char>, near: Nearest) -> Result<(Seq<u32>, u64), ErrorView> {
    match evaluated(f, near.query, Map::empty()) {
        Err(e) => Err(e@),
        Ok(v) => match query_vector(c, n, table, near.path@, v) {
            Err(e) => Err(e),
            Ok(q) => match evaluated(f, near.k, Map::empty()) {
                Err(e) => Err(e@),
                Ok(k) => match k {
                    Value::Int(m) => if m > 0 {
                        Ok((q, m as u64))
                    } else {
                        Err(ErrorView::Type("NEAREST k must be a positive integer"@))
                    },
                    _ => Err(ErrorView::Type("NEAREST k must be a positive integer"@)),
                },
            },
        },
    }
}

fn resolve_nearest<
    C: VectorCluster,
    F: Fn(&Expr, &Document) -> Result<Value, EngineError>,
    N: Fn(&Value) -> u32,
    W: Fn(u32, &Vec<usize>) -> (i64, Value),
>(c: &C, f: &F, v: &Fusing<N, W>, table: &str, near: &Nearest) -> (r: Result<
    (Vec<u32>, u64),
    EngineError,
>)
    requires
        is_evaluator(*f),
        fuses_soundly(*v),
    ensures
        match r {
            Ok((q, k)) => nearest_ask(*c, *f, v.narrow, table@, *near) == Ok::<
                (Seq<u32>, u64),
                ErrorView,
            >((q@, k)),
            Err(e) => nearest_ask(*c, *f, v.narrow, table@, *near) == Err::<
                (Seq<u32>, u64),
                ErrorView,
            >(e@),
        },
{
    let empty = Document::new();
    let query = match evaluate(f, &near.query, &empty) {
        Err(e) => {
            return Err(e);
        },
        Ok(q) => q,
    };
    let vector = match resolve_query_vector(&query) {
        Err(e) => {
            return Err(e);
        },
        Ok(QueryVector::Text(t)) => match c.embed_query(table, near.path.as_str(), t.as_str()) {
            Err(e) => {
                return Err(e);
            },
            Ok(x) => x,
        },
        Ok(QueryVector::Numbers(items)) => {
            let narrow = &v.narrow;
            let mut out: Vec<u32> = Vec::new();
            let mut i: usize = 0;
            while i < items.len()
                invariant
                    fuses_soundly(*v),
                    *narrow == v.narrow,
                    i <= items@.len(),
                    out@.len() == i,
                    forall|k: int|
                        0 <= k < i ==> #[trigger] out@[k] == component(v.narrow, items@[k]),
                decreases items@.len() - i,
            {
                out.push(narrow(&items[i]));
                i = i + 1;
            }
            proof {
                assert(out@ =~= items@.map_values(|x: Value| component(v.narrow, x)));
            }
            out
        },
    };
    let wanted = match evaluate(f, &near.k, &empty) {
        Err(e) => {
            return Err(e);
        },
        Ok(k) => k,
    };
    match nearest_k(&wanted) {
        Err(e) => Err(e),
        Ok(k) => Ok((vector, k)),
    }
}

/// What neighbours hold, each with its distance.
pub open spec fn distance_fields(hits: Seq<Hit>) -> Seq<Fields> {
    hits.map_values(|h: Hit| doc_view(h.1).insert("_distance"@, value_view(h.2)))
}

fn distance_docs(hits: Vec<Hit>) -> (r: Vec<Document>)
    requires
        hits_wf(hits@),
    ensures
        all_docs(r@) == distance_fields(hits@),
        docs_wf(r@),
{
    let ghost all = hits@;
    let mut out: Vec<Document> = Vec::new();
    for hit in it: hits
        invariant
            it.seq() == all,
            hits_wf(all),
            docs_wf(out@),
            out@.len() == it.index(),
            forall|i: int|
                0 <= i < out@.len() ==> doc_view(#[trigger] out@[i]) == doc_view(
                    all[i].1,
                ).insert("_distance"@, value_view(all[i].2)),
    {
        proof {
            let i = it.index() as int;
            assert(all[i] == hit);
            assert(doc_wf(all[i].1) && value_wf(all[i].2));
        }
        let (_, doc, distance) = hit;
        let mut near = doc;
        near.put_field("_distance".to_owned(), distance);
        out.push(near);
    }
    proof {
        assert(all_docs(out@) =~= distance_fields(all));
    }
    out
}

/// The conjuncts of an optional filter, taken whole.
pub open spec fn whole_filter(filter: Option<Expr>) -> Seq<Expr> {
    match filter {
        Some(e) => seq![e],
        None => Seq::empty(),
    }
}

/// What the rows of a nearest-neighbour query hold, or why there are none.
pub open spec fn nearest_rows<
    C: VectorCluster,
    F: Fn(&Expr, &Document) -> Result<Value, EngineError>,
    N: Fn(&Value) -> u32,
>(c: C, f: F, n: N, sel: Select, near: Nearest) -> Result<Seq<Fields>, ErrorView> {
    match nearest_refusal(sel) {
        Err(e) => Err(e),
        Ok(()) => match nearest_ask(c, f, n, sel.from@, near) {
            Err(e) => Err(e),
            Ok((q, k)) => match c.neighbours_of(
                sel.from@,
                near.path@,
                q,
                k,
                whole_filter(sel.filter),
            ) {
                Err(e) => Err(e@),
                Ok(hits) => Ok(distance_fields(hits)),
            },
        },
    }
}

/// Runs a nearest-neighbour query.
pub fn run_nearest_select<
    C: VectorCluster,
    F: Fn(&Expr, &Document) -> Result<Value, EngineError>,
    G: Fn(&Value, &Value) -> Rank,
    K: Fn(&Vec<&Value>) -> Vec<u8>,
    D: Fn(&Vec<&Value>) -> Vec<u8>,
    A: Fn(&Expr, &Vec<&Document>) -> Result<Value, EngineError>,
    H: Fn(&Expr, &Vec<&Document>) -> Result<bool, EngineError>,
    P: Fn(&Expr, &Document) -> Result<bool, EngineError>,
    J: Fn(&Document, &String) -> Option<Vec<u8>>,
    M: Fn(&Value, &Value) -> Option<Rank>,
    T: Fn(&Value) -> Option<i64>,
    Z: Fn(&AggFunc, &AggArg, &Vec<&Document>, AggOutcome) -> Result<Value, EngineError>,
    N: Fn(&Value) -> u32,
    W: Fn(u32, &Vec<usize>) -> (i64, Value),
>(c: &C, s: &Semantics<F, G, K, D, A, H, P, J, M, T, Z>, v: &Fusing<N, W>, sel: &Select, near: &Nearest) -> (r: Result<
    ResultSet,
    EngineError,
>)
    requires
        sound(*s),
        fuses_soundly(*v),
    ensures
        result_is(
            r,
            match nearest_rows(*c, s.eval, v.narrow, *sel, *near) {
                Err(e) => Err(e),
                Ok(ms) => shown(*s, *sel, ms, false, Set::empty(), true),
            },
        ),
{
    if let Err(e) = check_nearest(sel) {
        return Err(e);
    }
    let (query, k) = match resolve_nearest(c, &s.eval, v, sel.from.as_str(), near) {
        Err(e) => {
            return Err(e);
        },
        Ok(ask) => ask,
    };
    let mut filter: Vec<&Expr> = Vec::new();
    if let Some(e) = &sel.filter {
        filter.push(e);
    }
    proof {
        assert(pointees(filter@) =~= whole_filter(sel.filter));
    }
    let hits = match c.vector_search(sel.from.as_str(), near.path.as_str(), &query, k, &filter) {
        Err(e) => {
            return Err(e);
        },
        Ok(hits) => hits,
    };
    let none = NameSet::new();
    proof {
        assert(none@ =~= Set::<Seq<char>>::empty());
    }
    show(s, sel, distance_docs(hits), false, &none, true)
}

/// The keys of hits.
pub open spec fn hit_keys(hits: Seq<Hit>) -> Seq<Vec<u8>> {
    hits.map_values(|h: Hit| h.0)
}

fn copy_keys(hits: &Vec<Hit>) -> (r: Vec<Vec<u8>>)
    ensures
        r@.len() == hits@.len(),
        forall|i: int| 0 <= i < r@.len() ==> (#[trigger] r@[i])@ == hits@[i].0@,
{
    let mut out: Vec<Vec<u8>> = Vec::new();
    let mut i: usize = 0;
    while i < hits.len()
        invariant
            i <= hits@.len(),
            out@.len() == i,
            forall|k: int| 0 <= k < i ==> (#[trigger] out@[k])@ == hits@[k].0@,
        decreases hits@.len() - i,
    {
        out.push(copy_bytes(hits[i].0.as_slice()));
        i = i + 1;
    }
    out
}

/// A leg adds the same where its keys hold the same.
proof fn lemma_same_leg(hs: Seq<FusedView>, a: Seq<Vec<u8>>, b: Seq<Vec<u8>>)
    requires
        a.len() == b.len(),
        forall|i: int| 0 <= i < a.len() ==> (#[trigger] a[i])@ == b[i]@,
    ensures
        with_leg(hs, a) == with_leg(hs, b),
    decreases a.len(),
{
    if a.len() > 0 {
        let x = a.drop_last();
        let y = b.drop_last();
        assert forall|i: int| 0 <= i < x.len() implies (#[trigger] x[i])@ == y[i]@ by {
            assert(a[i]@ == b[i]@);
        }
        assert(a[a.len() - 1]@ == b[b.len() - 1]@);
        lemma_same_leg(hs, x, y);
    }
}

/// Every row that either leg found, with its places in them.
pub open spec fn fused_legs(text: Seq<Hit>, near: Seq<Hit>) -> Seq<FusedView> {
    with_leg(with_leg(Seq::empty(), hit_keys(text)), hit_keys(near))
}

/// The place of the first hit with a key, or the number of hits.
pub open spec fn hit_place(hits: Seq<Hit>, key: Seq<u8>) -> int
    decreases hits.len(),
{
    if hits.len() == 0 || hits[0].0@ == key {
        0
    } else {
        1 + hit_place(hits.skip(1), key)
    }
}

proof fn lemma_hit_place(hits: Seq<Hit>, key: Seq<u8>, k: int)
    requires
        0 <= k <= hits.len(),
        forall|i: int| 0 <= i < k ==> (#[trigger] hits[i]).0@ != key,
        k < hits.len() ==> hits[k].0@ == key,
    ensures
        hit_place(hits, key) == k,
    decreases hits.len(),
{
    if hits.len() > 0 && k > 0 {
        assert(hits[0].0@ != key);
        let rest = hits.skip(1);
        assert forall|i: int| 0 <= i < k - 1 implies (#[trigger] rest[i]).0@ != key by {
            assert(rest[i] == hits[i + 1]);
        }
        if k < hits.len() {
            assert(rest[k - 1] == hits[k]);
        }
        lemma_hit_place(rest, key, k - 1);
    }
}

fn find_hit(hits: &Vec<Hit>, key: &Vec<u8>) -> (r: usize)
    ensures
        r == hit_place(hits@, key@),
        r <= hits@.len(),
        r < hits@.len() <==> found_by(hit_keys(hits@), key@),
{
    let mut i: usize = 0;
    while i < hits.len() && !same_bytes(hits[i].0.as_slice(), key.as_slice())
        invariant
            i <= hits@.len(),
            forall|k: int| 0 <= k < i ==> (#[trigger] hits@[k]).0@ != key@,
        decreases hits@.len() - i,
    {
        i = i + 1;
    }
    proof {
        lemma_hit_place(hits@, key@, i as int);
        let ks = hit_keys(hits@);
        if i < hits@.len() {
            assert(ks[i as int]@ == key@);
        } else if found_by(ks, key@) {
            let k = choose|k: int| 0 <= k < ks.len() && (#[trigger] ks[k])@ == key@;
            assert(hits@[k].0@ == key@);
        }
    }
    i
}

/// What the row with a key holds: as the text leg found it, else as the vector
/// leg did.
pub open spec fn fused_fields_of(text: Seq<Hit>, near: Seq<Hit>, key: Seq<u8>) -> Fields {
    let p = hit_place(text, key);
    if p < text.len() {
        doc_view(text[p].1)
    } else {
        doc_view(near[hit_place(near, key)].1)
    }
}

/// Whether one fused row comes before another: by its score, then by its key.
pub open spec fn fused_before<W: Fn(u32, &Vec<usize>) -> (i64, Value)>(
    w: W,
    constant: u32,
    rows: Seq<FusedView>,
    a: int,
    b: int,
) -> bool {
    let x = fused_score(w, constant, rows[a].ranks).0;
    let y = fused_score(w, constant, rows[b].ranks).0;
    x < y || (x == y && bytes_lt(rows[a].key, rows[b].key))
}

/// What fused rows hold, best first, each with its fused score.
pub open spec fn fused_fields<W: Fn(u32, &Vec<usize>) -> (i64, Value)>(
    w: W,
    constant: u32,
    text: Seq<Hit>,
    near: Seq<Hit>,
) -> Seq<Fields> {
    let rows = fused_legs(text, near);
    stable_sorted(
        places(rows.len()),
        |a: int, b: int| fused_before(w, constant, rows, a, b),
    ).map_values(
        |i: int|
            fused_fields_of(text, near, rows[i].key).insert(
                "_rrf_score"@,
                value_view(fused_score(w, constant, rows[i].ranks).1),
            ),
    )
}

fn score_fused<
    N: Fn(&Value) -> u32,
    W: Fn(u32, &Vec<usize>) -> (i64, Value),
>(v: &Fusing<N, W>, constant: u32, hit: &FusedHit) -> (r: (i64, Value))
    requires
        fuses_soundly(*v),
    ensures
        r == fused_score(v.fuse, constant, hit@.ranks),
        value_wf(r.1),
{
    let fuse = &v.fuse;
    let r = fuse(constant, &hit.ranks);
    proof {
        let ranks = hit@.ranks;
        assert(call_ensures(v.fuse, (constant, &hit.ranks), r));
        assert(fuses(v.fuse, constant, ranks, r));
        let o = fused_score(v.fuse, constant, ranks);
        assert(fuses(v.fuse, constant, ranks, o));
        let q = choose|q: Vec<usize>|
            q@.map_values(|x: usize| x as nat) == ranks && #[trigger] call_ensures(
                v.fuse,
                (constant, &q),
                o,
            );
        assert(call_ensures(v.fuse, (constant, &q), o));
    }
    r
}

/// Fuses the two legs of a hybrid search into documents, best first.
pub fn fuse_docs<
    N: Fn(&Value) -> u32,
    W: Fn(u32, &Vec<usize>) -> (i64, Value),
>(v: &Fusing<N, W>, constant: u32, text: &Vec<Hit>, near: &Vec<Hit>) -> (r: Vec<
    Document,
>)
    requires
        fuses_soundly(*v),
        hits_wf(text@),
        hits_wf(near@),
    ensures
        all_docs(r@) == fused_fields(v.fuse, constant, text@, near@),
        docs_wf(r@),
{
    let text_keys = copy_keys(text);
    let near_keys = copy_keys(near);
    let fused = fuse_legs(&text_keys, &near_keys);
    let ghost rows = fused_legs(text@, near@);
    proof {
        lemma_same_leg(Seq::empty(), text_keys@, hit_keys(text@));
        lemma_same_leg(with_leg(Seq::empty(), text_keys@), near_keys@, hit_keys(near@));
        assert(fused_views(fused@) == rows);
        assert(rows.len() == fused@.len());
    }
    let n: usize = fused.len();
    let mut ranks: Vec<i64> = Vec::new();
    let mut scores: Vec<Value> = Vec::new();
    let mut keys: Vec<Vec<u8>> = Vec::new();
    let mut i: usize = 0;
    while i < n
        invariant
            fuses_soundly(*v),
            n == fused@.len(),
            n == rows.len(),
            fused_views(fused@) == rows,
            i <= n,
            ranks@.len() == i,
            scores@.len() == i,
            keys@.len() == i,
            forall|k: int|
                0 <= k < i ==> #[trigger] ranks@[k] == fused_score(
                    v.fuse,
                    constant,
                    rows[k].ranks,
                ).0,
            forall|k: int|
                0 <= k < i ==> #[trigger] scores@[k] == fused_score(
                    v.fuse,
                    constant,
                    rows[k].ranks,
                ).1 && value_wf(scores@[k]),
            forall|k: int| 0 <= k < i ==> (#[trigger] keys@[k])@ == rows[k].key,
        decreases n - i,
    {
        proof {
            assert(rows[i as int] == fused@[i as int]@);
        }
        let (rank, score) = score_fused(v, constant, &fused[i]);
        ranks.push(rank);
        scores.push(score);
        keys.push(copy_bytes(fused[i].key.as_slice()));
        i = i + 1;
    }
    let order = ranked_order(&ranks, &keys);
    let ghost want = fused_fields(v.fuse, constant, text@, near@);
    proof {
        let a = |x: int, y: int| hit_before(ranks@, keys@, x, y);
        let b = |x: int, y: int| fused_before(v.fuse, constant, rows, x, y);
        lemma_places_agree(n as nat, a, b);
        assert(as_places(order@) == stable_sorted(places(n as nat), b));
        assert(want.len() == order@.len());
        assert forall|k: int| 0 <= k < order@.len() implies (#[trigger] order@[k]) < n by {
            assert(as_places(order@)[k] == order@[k]);
        }
        assert forall|k: int| 0 <= k < order@.len() implies #[trigger] want[k]
            == fused_fields_of(text@, near@, rows[order@[k] as int].key).insert(
            "_rrf_score"@,
            value_view(fused_score(v.fuse, constant, rows[order@[k] as int].ranks).1),
        ) by {
            assert(as_places(order@)[k] == order@[k]);
        }
    }
    let mut out: Vec<Document> = Vec::new();
    let mut j: usize = 0;
    while j < order.len()
        invariant
            hits_wf(text@),
            hits_wf(near@),
            rows == fused_legs(text@, near@),
            n == rows.len(),
            scores@.len() == n,
            keys@.len() == n,
            forall|k: int|
                0 <= k < n ==> #[trigger] scores@[k] == fused_score(
                    v.fuse,
                    constant,
                    rows[k].ranks,
                ).1 && value_wf(scores@[k]),
            forall|k: int| 0 <= k < n ==> (#[trigger] keys@[k])@ == rows[k].key,
            forall|k: int| 0 <= k < order@.len() ==> (#[trigger] order@[k]) < n,
            want.len() == order@.len(),
            forall|k: int|
                0 <= k < order@.len() ==> #[trigger] want[k] == fused_fields_of(
                    text@,
                    near@,
                    rows[order@[k] as int].key,
                ).insert(
                    "_rrf_score"@,
                    value_view(fused_score(v.fuse, constant, rows[order@[k] as int].ranks).1),
                ),
            docs_wf(out@),
            j <= order@.len(),
            out@.len() == j,
            forall|k: int| 0 <= k < j ==> doc_view(#[trigger] out@[k]) == want[k],
        decreases order@.len() - j,
    {
        let p: usize = order[j];
        let ghost key = rows[p as int].key;
        proof {
            assert(keys@[p as int]@ == key);
            assert(fused_has(rows, key)) by {
                assert(rows[p as int].key == key);
            }
            fusion_keeps_both_legs(hit_keys(text@), hit_keys(near@), key);
            assert(order@[j as int] == p);
            assert(want[j as int] == fused_fields_of(text@, near@, key).insert(
                "_rrf_score"@,
                value_view(scores@[p as int]),
            ));
        }
        let t: usize = find_hit(text, &keys[p]);
        let mut doc = if t < text.len() {
            proof {
                assert(doc_wf(text@[t as int].1));
            }
            copy_document(&text[t].1)
        } else {
            let m: usize = find_hit(near, &keys[p]);
            proof {
                assert(doc_wf(near@[m as int].1));
            }
            copy_document(&near[m].1)
        };
        doc.put_field("_rrf_score".to_owned(), copy_value(&scores[p]));
        out.push(doc);
        j = j + 1;
    }
    proof {
        assert(all_docs(out@) =~= want);
    }
    out
}

/// Sorting places goes by what is said of them alone.
proof fn lemma_places_agree(n: nat, a: spec_fn(int, int) -> bool, b: spec_fn(int, int) -> bool)
    requires
        forall|x: int, y: int|
            0 <= x < n && 0 <= y < n ==> #[trigger] a(x, y) == b(x, y),
    ensures
        stable_sorted(places(n), a) == stable_sorted(places(n), b),
        stable_sorted(places(n), b).len() == n,
        forall|i: int|
            0 <= i < n ==> 0 <= #[trigger] stable_sorted(places(n), b)[i] < n,
    decreases n,
{
    if n > 0 {
        let m = (n - 1) as nat;
        lemma_places_agree(m, a, b);
        assert(places(n).drop_last() =~= places(m));
        assert(places(n).last() == m);
        let s = stable_sorted(places(m), b);
        lemma_slot_for(s, m as int, b);
        let p = slot_for(s, m as int, b);
        assert forall|i: int| 0 <= i < p implies !a(m as int, #[trigger] s[i]) by {
            assert(!b(m as int, s[i]));
        }
        if p < s.len() {
            assert(b(m as int, s[p]));
        }
        lemma_slot_for_is(s, m as int, a, p);
    }
}

/// The search query of a rank-fused query and what its two legs found, or why
/// it cannot be answered. The text leg is searched in the state `before`, the
/// vectors in the state `after` that search.
pub open spec fn hybrid_legs<
    C: VectorCluster,
    F: Fn(&Expr, &Document) -> Result<Value, EngineError>,
    N: Fn(&Value) -> u32,
>(before: C, after: C, f: F, n: N, sel: Select) -> Result<
    (QueryView, Seq<Hit>, Seq<Hit>),
    ErrorView,
> {
    match hybrid_plan(sel) {
        Err(e) => Err(e),
        Ok((query, residual)) => match nearest_ask(before, f, n, sel.from@, sel.nearest->0) {
            Err(e) => Err(e),
            Ok((q, k)) => match before.hits_of(
                sel.from@,
                (Ask { query, k: Some(k), residual, highlights: Seq::empty() }),
            ) {
                Err(e) => Err(e@),
                Ok(text) => match after.neighbours_of(
                    sel.from@,
                    sel.nearest->0.path@,
                    q,
                    k,
                    residual,
                ) {
                    Err(e) => Err(e@),
                    Ok(near) => Ok((query, text, near)),
                },
            },
        },
    }
}

/// What documents come to once they are shown, or the error in their place.
pub open spec fn shown_ranked<
    F: Fn(&Expr, &Document) -> Result<Value, EngineError>,
    G: Fn(&Value, &Value) -> Rank,
    K: Fn(&Vec<&Value>) -> Vec<u8>,
    D: Fn(&Vec<&Value>) -> Vec<u8>,
    A: Fn(&Expr, &Vec<&Document>) -> Result<Value, EngineError>,
    H: Fn(&Expr, &Vec<&Document>) -> Result<bool, EngineError>,
    P: Fn(&Expr, &Document) -> Result<bool, EngineError>,
    J: Fn(&Document, &String) -> Option<Vec<u8>>,
    M: Fn(&Value, &Value) -> Option<Rank>,
    T: Fn(&Value) -> Option<i64>,
    Z: Fn(&AggFunc, &AggArg, &Vec<&Document>, AggOutcome) -> Result<Value, EngineError>,
>(s: Semantics<F, G, K, D, A, H, P, J, M, T, Z>, sel: Select, ms: Result<Seq<Fields>, ErrorView>) -> Result<
    ResultView,
    ErrorView,
> {
    match ms {
        Err(e) => Err(e),
        Ok(ms) => shown(s, sel, ms, false, Set::empty(), true),
    }
}

/// Whether a result is that of a rank-fused query: the fused rows, best first.
/// Where they are to be reranked, it is what the first of them come to once
/// they have been.
pub open spec fn hybrid_result<
    C: VectorCluster,
    F: Fn(&Expr, &Document) -> Result<Value, EngineError>,
    G: Fn(&Value, &Value) -> Rank,
    K: Fn(&Vec<&Value>) -> Vec<u8>,
    D: Fn(&Vec<&Value>) -> Vec<u8>,
    A: Fn(&Expr, &Vec<&Document>) -> Result<Value, EngineError>,
    H: Fn(&Expr, &Vec<&Document>) -> Result<bool, EngineError>,
    P: Fn(&Expr, &Document) -> Result<bool, EngineError>,
    J: Fn(&Document, &String) -> Option<Vec<u8>>,
    M: Fn(&Value, &Value) -> Option<Rank>,
    T: Fn(&Value) -> Option<i64>,
    Z: Fn(&AggFunc, &AggArg, &Vec<&Document>, AggOutcome) -> Result<Value, EngineError>,
    L: Fn(&Document, &String) -> Value,
    O: Fn(&Value, &Value) -> Rank,
    X: Fn(&Value, &Value) -> Rank,
    N: Fn(&Value) -> u32,
    W: Fn(u32, &Vec<usize>) -> (i64, Value),
>(
    before: C,
    after: C,
    s: Semantics<F, G, K, D, A, H, P, J, M, T, Z>,
    x: Scoring<L, O, X>,
    v: Fusing<N, W>,
    sel: Select,
    r: Result<ResultSet, EngineError>,
) -> bool {
    match hybrid_legs(before, after, s.eval, v.narrow, sel) {
        Err(e) => result_is(r, Err(e)),
        Ok((query, text, near)) => {
            let ms = fused_fields(v.fuse, sel.rrf->0.constant, text, near);
            match sel.rerank {
                None => result_is(r, shown_ranked(s, sel, Ok(ms))),
                Some(rr) => exists|docs: Seq<Document>| #[trigger]
                    all_docs(docs) == first_few(ms, rr.top as nat) && result_is(
                        r,
                        shown_ranked(s, sel, reranked(before, x.at, rr, query, docs)),
                    ),
            }
        },
    }
}

/// Runs a query that fuses a full-text and a nearest-neighbour search by their
/// ranks.
pub fn run_hybrid_select<
    C: VectorCluster,
    F: Fn(&Expr, &Document) -> Result<Value, EngineError>,
    G: Fn(&Value, &Value) -> Rank,
    K: Fn(&Vec<&Value>) -> Vec<u8>,
    D: Fn(&Vec<&Value>) -> Vec<u8>,
    A: Fn(&Expr, &Vec<&Document>) -> Result<Value, EngineError>,
    H: Fn(&Expr, &Vec<&Document>) -> Result<bool, EngineError>,
    P: Fn(&Expr, &Document) -> Result<bool, EngineError>,
    J: Fn(&Document, &String) -> Option<Vec<u8>>,
    M: Fn(&Value, &Value) -> Option<Rank>,
    T: Fn(&Value) -> Option<i64>,
    Z: Fn(&AggFunc, &AggArg, &Vec<&Document>, AggOutcome) -> Result<Value, EngineError>,
    L: Fn(&Document, &String) -> Value,
    O: Fn(&Value, &Value) -> Rank,
    X: Fn(&Value, &Value) -> Rank,
    N: Fn(&Value) -> u32,
    W: Fn(u32, &Vec<usize>) -> (i64, Value),
>(
    c: &mut C,
    s: &Semantics<F, G, K, D, A, H, P, J, M, T, Z>,
    x: &Scoring<L, O, X>,
    v: &Fusing<N, W>,
    sel: &Select,
) -> (r: Result<ResultSet, EngineError>)
    requires
        sound(*s),
        scores_soundly(*x),
        fuses_soundly(*v),
        sel.rrf is Some,
    ensures
        final(c).acknowledged() == old(c).acknowledged(),
        hybrid_result(*old(c), *final(c), *s, *x, *v, *sel, r),
{
    let constant: u32 = match &sel.rrf {
        Some(rrf) => rrf.constant,
        None => 0,
    };
    let (query, residual) = match plan_hybrid_select(sel) {
        Err(e) => {
            return Err(e);
        },
        Ok(plan) => plan,
    };
    let near = match &sel.nearest {
        Some(near) => near,
        None => {
            return Err(unsupported("RANK BY RRF requires a NEAREST (vector) clause"));
        },
    };
    let table = sel.from.as_str();
    let (vector, k) = match resolve_nearest(&*c, &s.eval, v, table, near) {
        Err(e) => {
            return Err(e);
        },
        Ok(ask) => ask,
    };
    let plain: Vec<HighlightReq> = Vec::new();
    proof {
        assert(req_views(plain@) =~= Seq::<ReqView>::empty());
    }
    let text = match c.search(table, &query, Some(k), &residual, &plain) {
        Err(e) => {
            return Err(e);
        },
        Ok(hits) => hits,
    };
    let close = match c.vector_search(table, near.path.as_str(), &vector, k, &residual) {
        Err(e) => {
            return Err(e);
        },
        Ok(hits) => hits,
    };
    let mut docs = fuse_docs(v, constant, &text, &close);
    if let Some(rr) = &sel.rerank {
        let ghost all = docs@;
        if rr.top < docs.len() as u64 {
            docs.truncate(rr.top as usize);
            proof {
                assert(docs@ == all.take(rr.top as int));
                assert(all_docs(docs@) =~= all_docs(all).take(rr.top as int));
            }
        }
        let ghost few = docs@;
        proof {
            assert(all_docs(few) == first_few(all_docs(all), rr.top as nat));
        }
        docs = match apply_rerank(&*c, x, rr, &query, docs) {
            Err(e) => {
                return Err(e);
            },
            Ok(ranked) => ranked,
        };
    }
    let none = NameSet::new();
    proof {
        assert(none@ =~= Set::<Seq<char>>::empty());
    }
    show(s, sel, docs, false, &none, true)
}

} // verus!
