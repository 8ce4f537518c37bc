//! Grouped queries: forming groups, a row per group, and the best rows of each
//! group.

use vstd::prelude::*;

use crate::ast::Expr;
use crate::ast::Select;
use crate::ast::SelectItem;
use crate::bytes::same_bytes;
use crate::error::unsupported;
use crate::error::EngineError;
use crate::error::ErrorView;
use crate::execute::encode_tuple;
use crate::execute::encoding;
use crate::execute::evaluate;
use crate::execute::evaluated;
use crate::execute::is_encoder;
use crate::execute::is_evaluator;
use crate::execute::row_view;
use crate::execute::row_wf;
use crate::model::doc_view;
use crate::model::value_view;
use crate::model::value_wf;
use crate::model::Fields;
use crate::model::ValueView;
use crate::order::as_places;
use crate::order::is_ranking;
use crate::order::page;
use crate::order::Rank;
use crate::projection::contains_aggregate;
use crate::projection::has_aggregate;
use crate::projection::has_wildcard;
use crate::projection::is_grouped;
use crate::projection::item_aggregates;
use crate::projection::wildcard;
use crate::projection::NameSet;
use crate::results::at_places;
use crate::results::dedup_rows;
use crate::results::deduped;
use crate::results::docs_wf;
use crate::results::exprs_of;
use crate::results::in_docs;
use crate::results::key_order;
use crate::results::order_by_keys;
use crate::results::order_directions;
use crate::results::order_exprs;
use crate::results::order_parts;
use crate::results::page_rows;
use crate::results::picked;
use crate::results::rows_at;
use crate::results::rows_view;
use crate::results::rows_wf;
use crate::results::select_rows;
use crate::results::selected;
use crate::results::sort_docs;
use crate::results::sorted_docs;
use crate::results::tuples;
use crate::results::ResultSet;
use crate::results::ResultView;
use crate::select_plan::output_columns;
use crate::select_plan::output_names;
use crate::text::views;
use crate::value::Document;
use crate::value::Value;

verus! {

/// A group: its encoded key, and the places of its documents.
pub struct Group {
    pub key: Vec<u8>,
    pub members: Vec<usize>,
}

/// A group by its key and its documents' places.
pub struct GroupView {
    pub key: Seq<u8>,
    pub members: Seq<int>,
}

impl View for Group {
    type V = GroupView;

    open spec fn view(&self) -> GroupView {
        GroupView { key: self.key@, members: as_places(self.members@) }
    }
}

/// Groups by what each holds.
pub open spec fn group_views(gs: Seq<Group>) -> Seq<GroupView> {
    gs.map_values(|g: Group| g@)
}

/// The first `n` values that a document is grouped by.
pub open spec fn group_values<F: Fn(&Expr, &Document) -> Result<Value, EngineError>>(
    f: F,
    group_by: Seq<Expr>,
    m: Fields,
    n: nat,
) -> Result<Seq<ValueView>, EngineError>
    decreases n,
{
    if n == 0 {
        Ok(Seq::empty())
    } else {
        match group_values(f, group_by, m, (n - 1) as nat) {
            Err(e) => Err(e),
            Ok(vs) => match evaluated(f, group_by[n - 1], m) {
                Err(e) => Err(e),
                Ok(v) => Ok(vs.push(value_view(v))),
            },
        }
    }
}

proof fn lemma_group_values_fail<F: Fn(&Expr, &Document) -> Result<Value, EngineError>>(
    f: F,
    group_by: Seq<Expr>,
    m: Fields,
    k: nat,
    n: nat,
)
    requires
        k <= n,
        group_values(f, group_by, m, k) is Err,
    ensures
        group_values(f, group_by, m, n) == group_values(f, group_by, m, k),
    decreases n - k,
{
    if k < n {
        lemma_group_values_fail(f, group_by, m, k, (n - 1) as nat);
    }
}

/// The encoded group key of a document.
pub open spec fn group_key<
    F: Fn(&Expr, &Document) -> Result<Value, EngineError>,
    K: Fn(&Vec<&Value>) -> Vec<u8>,
>(f: F, k: K, group_by: Seq<Expr>, m: Fields) -> Result<Seq<u8>, EngineError> {
    match group_values(f, group_by, m, group_by.len()) {
        Err(e) => Err(e),
        Ok(vs) => Ok(encoding(k, vs)),
    }
}

fn key_of_group<
    F: Fn(&Expr, &Document) -> Result<Value, EngineError>,
    K: Fn(&Vec<&Value>) -> Vec<u8>,
>(f: &F, k: &K, group_by: &Vec<Expr>, doc: &Document) -> (r: Result<Vec<u8>, EngineError>)
    requires
        is_evaluator(*f),
        is_encoder(*k),
    ensures
        match r {
            Ok(key) => group_key(*f, *k, group_by@, doc_view(*doc)) == Ok::<Seq<u8>, EngineError>(
                key@,
            ),
            Err(e) => group_key(*f, *k, group_by@, doc_view(*doc)) == Err::<Seq<u8>, EngineError>(
                e,
            ),
        },
{
    let ghost m = doc_view(*doc);
    let mut values: Vec<Value> = Vec::new();
    let mut i: usize = 0;
    proof {
        assert(row_view(values@) =~= Seq::<ValueView>::empty());
    }
    while i < group_by.len()
        invariant
            is_evaluator(*f),
            m == doc_view(*doc),
            i <= group_by@.len(),
            group_values(*f, group_by@, m, i as nat) == Ok::<Seq<ValueView>, EngineError>(
                row_view(values@),
            ),
        decreases group_by@.len() - i,
    {
        let ghost before = row_view(values@);
        match evaluate(f, &group_by[i], doc) {
            Err(e) => {
                proof {
                    lemma_group_values_fail(*f, group_by@, m, (i + 1) as nat, group_by@.len());
                }
                return Err(e);
            },
            Ok(v) => {
                let ghost held = value_view(v);
                values.push(v);
                proof {
                    assert(row_view(values@) =~= before.push(held));
                }
            },
        }
        i = i + 1;
    }
    let refs = crate::results::row_refs(&values);
    Ok(encode_tuple(k, &refs))
}

/// The place of a key among groups, or their number.
pub open spec fn group_place(gs: Seq<GroupView>, key: Seq<u8>) -> int
    decreases gs.len(),
{
    if gs.len() == 0 {
        0
    } else if gs[0].key == key {
        0
    } else {
        1 + group_place(gs.skip(1), key)
    }
}

/// Groups with one more document: behind the others of its group, or the first
/// of a new one.
pub open spec fn with_member(gs: Seq<GroupView>, key: Seq<u8>, p: int) -> Seq<GroupView> {
    let i = group_place(gs, key);
    if i < gs.len() {
        gs.update(i, GroupView { key: gs[i].key, members: gs[i].members.push(p) })
    } else {
        gs.push(GroupView { key, members: seq![p] })
    }
}

/// The groups of documents in the order of first sight.
pub open spec fn grouped<
    F: Fn(&Expr, &Document) -> Result<Value, EngineError>,
    K: Fn(&Vec<&Value>) -> Vec<u8>,
>(f: F, k: K, group_by: Seq<Expr>, ms: Seq<Fields>) -> Result<Seq<GroupView>, EngineError>
    decreases ms.len(),
{
    if ms.len() == 0 {
        Ok(Seq::empty())
    } else {
        match grouped(f, k, group_by, ms.drop_last()) {
            Err(e) => Err(e),
            Ok(gs) => match group_key(f, k, group_by, ms.last()) {
                Err(e) => Err(e),
                Ok(key) => Ok(with_member(gs, key, ms.len() - 1)),
            },
        }
    }
}

proof fn lemma_grouped_fails<
    F: Fn(&Expr, &Document) -> Result<Value, EngineError>,
    K: Fn(&Vec<&Value>) -> Vec<u8>,
>(f: F, k: K, group_by: Seq<Expr>, ms: Seq<Fields>, n: int)
    requires
        0 <= n <= ms.len(),
        grouped(f, k, group_by, ms.take(n)) is Err,
    ensures
        grouped(f, k, group_by, ms) == grouped(f, k, group_by, ms.take(n)),
    decreases ms.len() - n,
{
    if n == ms.len() {
        assert(ms.take(n) =~= ms);
    } else {
        assert(ms.take(n + 1).drop_last() =~= ms.take(n));
        lemma_grouped_fails(f, k, group_by, ms, n + 1);
    }
}

proof fn lemma_group_place(gs: Seq<GroupView>, key: Seq<u8>, k: int)
    requires
        0 <= k <= gs.len(),
        forall|i: int| 0 <= i < k ==> (#[trigger] gs[i]).key != key,
        k < gs.len() ==> gs[k].key == key,
    ensures
        group_place(gs, key) == k,
    decreases gs.len(),
{
    if gs.len() > 0 && k > 0 {
        assert(gs[0].key != key);
        let rest = gs.skip(1);
        assert forall|i: int| 0 <= i < k - 1 implies (#[trigger] rest[i]).key != key by {
            assert(rest[i] == gs[i + 1]);
        }
        if k < gs.len() {
            assert(rest[k - 1] == gs[k]);
        }
        lemma_group_place(rest, key, k - 1);
    }
}

/// Whether every group's places are below `n`.
pub open spec fn members_below(gs: Seq<Group>, n: int) -> bool {
    forall|i: int, j: int|
        0 <= i < gs.len() && 0 <= j < gs[i].members@.len() ==> #[trigger] gs[i].members@[j] < n
}

fn add_member(gs: &mut Vec<Group>, key: Vec<u8>, p: usize)
    requires
        members_below(old(gs)@, p as int),
    ensures
        group_views(final(gs)@) == with_member(group_views(old(gs)@), key@, p as int),
        members_below(final(gs)@, p + 1),
{
    let ghost before = group_views(gs@);
    let mut i: usize = 0;
    while i < gs.len() && !same_bytes(gs[i].key.as_slice(), key.as_slice())
        invariant
            group_views(gs@) == before,
            members_below(gs@, p as int),
            i <= gs@.len(),
            forall|k: int| 0 <= k < i ==> (#[trigger] before[k]).key != key@,
        decreases gs@.len() - i,
    {
        proof {
            assert(before[i as int] == gs@[i as int]@);
        }
        i = i + 1;
    }
    proof {
        assert(before.len() == gs@.len());
        if i < gs@.len() {
            assert(before[i as int] == gs@[i as int]@);
        }
        lemma_group_place(before, key@, i as int);
    }
    if i < gs.len() {
        let ghost start = gs@;
        let mut g = gs.remove(i);
        let ghost members = g@.members;
        g.members.push(p);
        proof {
            assert(g@.members =~= members.push(p as int));
        }
        gs.insert(i, g);
        proof {
            assert(group_views(gs@) =~= with_member(before, key@, p as int));
            assert forall|a: int, b: int|
                0 <= a < gs@.len() && 0 <= b < gs@[a].members@.len() implies #[trigger] gs@[a].members@[b]
                < p + 1 by {
                if a != i {
                    assert(gs@[a] == start[a]);
                    assert(start[a].members@[b] < p);
                } else if b < start[a].members@.len() {
                    assert(start[a].members@[b] < p);
                }
            }
        }
    } else {
        let ghost start = gs@;
        let mut members: Vec<usize> = Vec::new();
        members.push(p);
        let g = Group { key, members };
        proof {
            assert(g@.members =~= seq![p as int]);
        }
        gs.push(g);
        proof {
            assert(group_views(gs@) =~= with_member(before, key@, p as int));
            assert forall|a: int, b: int|
                0 <= a < gs@.len() && 0 <= b < gs@[a].members@.len() implies #[trigger] gs@[a].members@[b]
                < p + 1 by {
                if a < start.len() {
                    assert(gs@[a] == start[a]);
                    assert(start[a].members@[b] < p);
                }
            }
        }
    }
}

/// All documents by what each holds.
pub open spec fn all_docs(docs: Seq<Document>) -> Seq<Fields> {
    docs.map_values(|d: Document| doc_view(d))
}

/// Groups documents by expressions, in the order of first sight.
pub fn group_docs<
    F: Fn(&Expr, &Document) -> Result<Value, EngineError>,
    K: Fn(&Vec<&Value>) -> Vec<u8>,
>(f: &F, k: &K, group_by: &Vec<Expr>, docs: &Vec<Document>) -> (r: Result<
    Vec<Group>,
    EngineError,
>)
    requires
        is_evaluator(*f),
        is_encoder(*k),
    ensures
        match r {
            Ok(gs) => grouped(*f, *k, group_by@, all_docs(docs@)) == Ok::<
                Seq<GroupView>,
                EngineError,
            >(group_views(gs@)) && members_below(gs@, docs@.len() as int),
            Err(e) => grouped(*f, *k, group_by@, all_docs(docs@)) == Err::<
                Seq<GroupView>,
                EngineError,
            >(e),
        },
{
    let ghost ms = all_docs(docs@);
    let mut gs: Vec<Group> = Vec::new();
    let mut i: usize = 0;
    proof {
        assert(ms.take(0) =~= Seq::<Fields>::empty());
        assert(group_views(gs@) =~= Seq::<GroupView>::empty());
    }
    while i < docs.len()
        invariant
            is_evaluator(*f),
            is_encoder(*k),
            ms == all_docs(docs@),
            i <= docs@.len(),
            members_below(gs@, i as int),
            grouped(*f, *k, group_by@, ms.take(i as int)) == Ok::<Seq<GroupView>, EngineError>(
                group_views(gs@),
            ),
        decreases docs@.len() - i,
    {
        proof {
            assert(ms.take(i + 1).drop_last() =~= ms.take(i as int));
            assert(ms.take(i + 1).last() == doc_view(docs@[i as int]));
        }
        match key_of_group(f, k, group_by, &docs[i]) {
            Err(e) => {
                proof {
                    lemma_grouped_fails(*f, *k, group_by@, ms, i + 1);
                }
                return Err(e);
            },
            Ok(key) => {
                add_member(&mut gs, key, i);
            },
        }
        i = i + 1;
    }
    proof {
        assert(ms.take(ms.len() as int) =~= ms);
    }
    Ok(gs)
}

/// Whether a place is in some group.
pub open spec fn in_some_group(gs: Seq<GroupView>, p: int) -> bool {
    exists|i: int| 0 <= i < gs.len() && (#[trigger] gs[i]).members.contains(p)
}

/// Every document is in a group.
pub proof fn every_document_is_grouped<
    F: Fn(&Expr, &Document) -> Result<Value, EngineError>,
    K: Fn(&Vec<&Value>) -> Vec<u8>,
>(f: F, k: K, group_by: Seq<Expr>, ms: Seq<Fields>, p: int)
    requires
        0 <= p < ms.len(),
    ensures
        grouped(f, k, group_by, ms) matches Ok(gs) ==> in_some_group(gs, p),
    decreases ms.len(),
{
    if let Ok(gs) = grouped(f, k, group_by, ms) {
        let init = ms.drop_last();
        let before = grouped(f, k, group_by, init)->Ok_0;
        let key = group_key(f, k, group_by, ms.last())->Ok_0;
        let i = group_place(before, key);
        lemma_group_place_range(before, key);
        if p < ms.len() - 1 {
            every_document_is_grouped(f, k, group_by, init, p);
            let g = choose|g: int| 0 <= g < before.len() && (#[trigger] before[g]).members.contains(p);
            if g == i {
                let j = choose|j: int| 0 <= j < before[g].members.len() && before[g].members[j] == p;
                assert(gs[g].members[j] == p);
            }
            assert(gs[g].members.contains(p));
        } else if i < before.len() {
            assert(gs[i].members[before[i].members.len() as int] == p);
            assert(gs[i].members.contains(p));
        } else {
            assert(gs[before.len() as int].members[0] == p);
            assert(gs[before.len() as int].members.contains(p));
        }
    }
}

proof fn lemma_group_place_range(gs: Seq<GroupView>, key: Seq<u8>)
    ensures
        0 <= group_place(gs, key) <= gs.len(),
    decreases gs.len(),
{
    if gs.len() > 0 && gs[0].key != key {
        lemma_group_place_range(gs.skip(1), key);
    }
}

/// Documents that are referred to, by what each holds.
pub open spec fn refs_view(ds: Seq<&Document>) -> Seq<Fields> {
    ds.map_values(|d: &Document| doc_view(*d))
}

/// What a call gave for a group of documents that hold `ms`.
pub open spec fn gives_for_group<A: Fn(&Expr, &Vec<&Document>) -> Result<Value, EngineError>>(
    a: A,
    e: Expr,
    ms: Seq<Fields>,
    r: Result<Value, EngineError>,
) -> bool {
    exists|ds: Vec<&Document>| #[trigger] call_ensures(a, (&e, &ds), r) && refs_view(ds@) == ms
}

/// What an expression evaluates to on a group: its aggregates over the whole,
/// the rest on the first document.
pub open spec fn group_evaluated<A: Fn(&Expr, &Vec<&Document>) -> Result<Value, EngineError>>(
    a: A,
    e: Expr,
    ms: Seq<Fields>,
) -> Result<Value, EngineError> {
    choose|r: Result<Value, EngineError>| gives_for_group(a, e, ms, r)
}

/// Whether a function evaluates expressions on groups, always to the same on
/// groups that hold the same.
pub open spec fn is_group_evaluator<A: Fn(&Expr, &Vec<&Document>) -> Result<Value, EngineError>>(
    a: A,
) -> bool {
    &&& forall|e: &Expr, ds: &Vec<&Document>| call_requires(a, (e, ds))
    &&& forall|
        e: &Expr,
        p: &Vec<&Document>,
        q: &Vec<&Document>,
        x: Result<Value, EngineError>,
        y: Result<Value, EngineError>,
    |
        #![trigger call_ensures(a, (e, p), x), call_ensures(a, (e, q), y)]
        refs_view(p@) == refs_view(q@) && call_ensures(a, (e, p), x) && call_ensures(a, (e, q), y)
            ==> x == y
    &&& forall|e: &Expr, ds: &Vec<&Document>, x: Result<Value, EngineError>| #[trigger]
        call_ensures(a, (e, ds), x) && x is Ok ==> value_wf(x->Ok_0)
}

fn evaluate_group<A: Fn(&Expr, &Vec<&Document>) -> Result<Value, EngineError>>(
    a: &A,
    e: &Expr,
    ds: &Vec<&Document>,
) -> (r: Result<Value, EngineError>)
    requires
        is_group_evaluator(*a),
    ensures
        r == group_evaluated(*a, *e, refs_view(ds@)),
        r matches Ok(v) ==> value_wf(v),
{
    let r = a(e, ds);
    proof {
        let ms = refs_view(ds@);
        assert(call_ensures(*a, (e, ds), r));
        assert(gives_for_group(*a, *e, ms, r));
        let c = group_evaluated(*a, *e, ms);
        assert(gives_for_group(*a, *e, ms, c));
        let other = choose|o: Vec<&Document>| #[trigger] call_ensures(*a, (e, &o), c) && refs_view(
            o@,
        ) == ms;
        assert(call_ensures(*a, (e, &other), c));
    }
    r
}

/// What a call decided for a group of documents that hold `ms`.
pub open spec fn decides_for_group<H: Fn(&Expr, &Vec<&Document>) -> Result<bool, EngineError>>(
    h: H,
    e: Expr,
    ms: Seq<Fields>,
    r: Result<bool, EngineError>,
) -> bool {
    exists|ds: Vec<&Document>| #[trigger] call_ensures(h, (&e, &ds), r) && refs_view(ds@) == ms
}

/// Whether a group passes a predicate.
pub open spec fn group_decided<H: Fn(&Expr, &Vec<&Document>) -> Result<bool, EngineError>>(
    h: H,
    e: Expr,
    ms: Seq<Fields>,
) -> Result<bool, EngineError> {
    choose|r: Result<bool, EngineError>| decides_for_group(h, e, ms, r)
}

/// Whether a function decides predicates on groups, always the same way on
/// groups that hold the same.
pub open spec fn is_group_decider<H: Fn(&Expr, &Vec<&Document>) -> Result<bool, EngineError>>(h: H) -> bool {
    &&& forall|e: &Expr, ds: &Vec<&Document>| call_requires(h, (e, ds))
    &&& forall|
        e: &Expr,
        p: &Vec<&Document>,
        q: &Vec<&Document>,
        x: Result<bool, EngineError>,
        y: Result<bool, EngineError>,
    |
        #![trigger call_ensures(h, (e, p), x), call_ensures(h, (e, q), y)]
        refs_view(p@) == refs_view(q@) && call_ensures(h, (e, p), x) && call_ensures(h, (e, q), y)
            ==> x == y
}

/// Whether a group passes `HAVING`.
pub open spec fn has_group<H: Fn(&Expr, &Vec<&Document>) -> Result<bool, EngineError>>(
    h: H,
    having: Option<Expr>,
    ms: Seq<Fields>,
) -> Result<bool, EngineError> {
    match having {
        None => Ok(true),
        Some(e) => group_decided(h, e, ms),
    }
}

fn keeps_group<H: Fn(&Expr, &Vec<&Document>) -> Result<bool, EngineError>>(
    h: &H,
    having: &Option<Expr>,
    ds: &Vec<&Document>,
) -> (r: Result<bool, EngineError>)
    requires
        is_group_decider(*h),
    ensures
        r == has_group(*h, *having, refs_view(ds@)),
{
    match having {
        None => Ok(true),
        Some(e) => {
            let r = h(e, ds);
            proof {
                let ms = refs_view(ds@);
                assert(call_ensures(*h, (e, ds), r));
                assert(decides_for_group(*h, *e, ms, r));
                let c = group_decided(*h, *e, ms);
                assert(decides_for_group(*h, *e, ms, c));
                let other = choose|o: Vec<&Document>| #[trigger] call_ensures(*h, (e, &o), c)
                    && refs_view(o@) == ms;
                assert(call_ensures(*h, (e, &other), c));
            }
            r
        },
    }
}

/// References to the documents at places.
fn group_refs<'a>(docs: &'a Vec<Document>, members: &Vec<usize>) -> (r: Vec<&'a Document>)
    requires
        in_docs(docs@, members@),
    ensures
        refs_view(r@) == picked(docs@, members@),
{
    let mut out: Vec<&'a Document> = Vec::new();
    let mut i: usize = 0;
    while i < members.len()
        invariant
            in_docs(docs@, members@),
            i <= members@.len(),
            out@.len() == i,
            forall|k: int| 0 <= k < i ==> *(#[trigger] out@[k]) == docs@[members@[k] as int],
        decreases members@.len() - i,
    {
        out.push(&docs[members[i]]);
        i = i + 1;
    }
    proof {
        assert(refs_view(out@) =~= picked(docs@, members@));
    }
    out
}

/// The first `n` expressions evaluated on a group.
pub open spec fn group_tuple<A: Fn(&Expr, &Vec<&Document>) -> Result<Value, EngineError>>(
    a: A,
    exprs: Seq<Expr>,
    ms: Seq<Fields>,
    n: nat,
) -> Result<Seq<Value>, EngineError>
    decreases n,
{
    if n == 0 {
        Ok(Seq::empty())
    } else {
        match group_tuple(a, exprs, ms, (n - 1) as nat) {
            Err(e) => Err(e),
            Ok(vs) => match group_evaluated(a, exprs[n - 1], ms) {
                Err(e) => Err(e),
                Ok(v) => Ok(vs.push(v)),
            },
        }
    }
}

proof fn lemma_group_tuple_fails<A: Fn(&Expr, &Vec<&Document>) -> Result<Value, EngineError>>(
    a: A,
    exprs: Seq<Expr>,
    ms: Seq<Fields>,
    k: nat,
    n: nat,
)
    requires
        k <= n,
        group_tuple(a, exprs, ms, k) is Err,
    ensures
        group_tuple(a, exprs, ms, n) == group_tuple(a, exprs, ms, k),
    decreases n - k,
{
    if k < n {
        lemma_group_tuple_fails(a, exprs, ms, k, (n - 1) as nat);
    }
}

fn evaluate_tuple<A: Fn(&Expr, &Vec<&Document>) -> Result<Value, EngineError>>(
    a: &A,
    exprs: &Vec<&Expr>,
    ds: &Vec<&Document>,
) -> (r: Result<Vec<Value>, EngineError>)
    requires
        is_group_evaluator(*a),
    ensures
        match r {
            Ok(vs) => group_tuple(*a, exprs_of(exprs@), refs_view(ds@), exprs@.len()) == Ok::<
                Seq<Value>,
                EngineError,
            >(vs@) && row_wf(vs@),
            Err(e) => group_tuple(*a, exprs_of(exprs@), refs_view(ds@), exprs@.len()) == Err::<
                Seq<Value>,
                EngineError,
            >(e),
        },
{
    let ghost es = exprs_of(exprs@);
    let ghost ms = refs_view(ds@);
    let mut out: Vec<Value> = Vec::new();
    let mut i: usize = 0;
    proof {
        assert(out@ =~= Seq::<Value>::empty());
    }
    while i < exprs.len()
        invariant
            is_group_evaluator(*a),
            es == exprs_of(exprs@),
            ms == refs_view(ds@),
            row_wf(out@),
            i <= exprs@.len(),
            group_tuple(*a, es, ms, i as nat) == Ok::<Seq<Value>, EngineError>(out@),
        decreases exprs@.len() - i,
    {
        proof {
            assert(es[i as int] == *exprs@[i as int]);
        }
        match evaluate_group(a, exprs[i], ds) {
            Err(e) => {
                proof {
                    lemma_group_tuple_fails(*a, es, ms, (i + 1) as nat, exprs@.len());
                }
                return Err(e);
            },
            Ok(v) => {
                out.push(v);
            },
        }
        i = i + 1;
    }
    Ok(out)
}

/// The projected expressions of a query.
pub open spec fn item_exprs(items: Seq<SelectItem>) -> Seq<Expr>
    decreases items.len(),
{
    if items.len() == 0 {
        Seq::empty()
    } else {
        match items.last() {
            SelectItem::Wildcard => item_exprs(items.drop_last()),
            SelectItem::Expr { expr, .. } => item_exprs(items.drop_last()).push(expr),
        }
    }
}

fn projected_exprs<'a>(items: &'a Vec<SelectItem>) -> (r: Vec<&'a Expr>)
    ensures
        exprs_of(r@) == item_exprs(items@),
{
    let mut out: Vec<&'a Expr> = Vec::new();
    let mut i: usize = 0;
    proof {
        assert(items@.take(0) =~= Seq::<SelectItem>::empty());
        assert(exprs_of(out@) =~= Seq::<Expr>::empty());
    }
    while i < items.len()
        invariant
            i <= items@.len(),
            exprs_of(out@) == item_exprs(items@.take(i as int)),
        decreases items@.len() - i,
    {
        proof {
            assert(items@.take(i + 1).drop_last() =~= items@.take(i as int));
            assert(items@.take(i + 1).last() == items@[i as int]);
        }
        if let SelectItem::Expr { expr, .. } = &items[i] {
            let ghost before = exprs_of(out@);
            out.push(expr);
            proof {
                assert(exprs_of(out@) =~= before.push(*expr));
            }
        }
        i = i + 1;
    }
    proof {
        assert(items@.take(items@.len() as int) =~= items@);
    }
    out
}

/// The sort key and the row of a group; nothing for a group that `HAVING`
/// drops.
pub open spec fn group_row<
    A: Fn(&Expr, &Vec<&Document>) -> Result<Value, EngineError>,
    H: Fn(&Expr, &Vec<&Document>) -> Result<bool, EngineError>,
>(a: A, h: H, sel: Select, ms: Seq<Fields>) -> Result<
    Option<(Seq<Value>, Seq<ValueView>)>,
    EngineError,
> {
    match has_group(h, sel.having, ms) {
        Err(e) => Err(e),
        Ok(false) => Ok(None),
        Ok(true) => {
            let exprs = item_exprs(sel.items@);
            match group_tuple(a, exprs, ms, exprs.len()) {
                Err(e) => Err(e),
                Ok(row) => {
                    let keys = order_exprs(sel.order_by@);
                    match group_tuple(a, keys, ms, keys.len()) {
                        Err(e) => Err(e),
                        Ok(key) => Ok(Some((key, row_view(row)))),
                    }
                },
            }
        },
    }
}

/// The sort keys and rows of groups, in order.
pub open spec fn group_rows<
    A: Fn(&Expr, &Vec<&Document>) -> Result<Value, EngineError>,
    H: Fn(&Expr, &Vec<&Document>) -> Result<bool, EngineError>,
>(a: A, h: H, sel: Select, ms: Seq<Fields>, gs: Seq<GroupView>) -> Result<
    (Seq<Seq<Value>>, Seq<Seq<ValueView>>),
    EngineError,
>
    decreases gs.len(),
{
    if gs.len() == 0 {
        Ok((Seq::empty(), Seq::empty()))
    } else {
        match group_rows(a, h, sel, ms, gs.drop_last()) {
            Err(e) => Err(e),
            Ok((keys, rows)) => match group_row(a, h, sel, at_places(ms, gs.last().members)) {
                Err(e) => Err(e),
                Ok(None) => Ok((keys, rows)),
                Ok(Some((key, row))) => Ok((keys.push(key), rows.push(row))),
            },
        }
    }
}

proof fn lemma_group_rows_fail<
    A: Fn(&Expr, &Vec<&Document>) -> Result<Value, EngineError>,
    H: Fn(&Expr, &Vec<&Document>) -> Result<bool, EngineError>,
>(a: A, h: H, sel: Select, ms: Seq<Fields>, gs: Seq<GroupView>, n: int)
    requires
        0 <= n <= gs.len(),
        group_rows(a, h, sel, ms, gs.take(n)) is Err,
    ensures
        group_rows(a, h, sel, ms, gs) == group_rows(a, h, sel, ms, gs.take(n)),
    decreases gs.len() - n,
{
    if n == gs.len() {
        assert(gs.take(n) =~= gs);
    } else {
        assert(gs.take(n + 1).drop_last() =~= gs.take(n));
        lemma_group_rows_fail(a, h, sel, ms, gs, n + 1);
    }
}

proof fn lemma_members(docs: Seq<Document>, members: Seq<usize>)
    requires
        in_docs(docs, members),
    ensures
        picked(docs, members) == at_places(all_docs(docs), as_places(members)),
{
    assert(picked(docs, members) =~= at_places(all_docs(docs), as_places(members)));
}

fn rows_of_groups<
    A: Fn(&Expr, &Vec<&Document>) -> Result<Value, EngineError>,
    H: Fn(&Expr, &Vec<&Document>) -> Result<bool, EngineError>,
>(a: &A, h: &H, sel: &Select, docs: &Vec<Document>, gs: &Vec<Group>) -> (r: Result<
    (Vec<Vec<Value>>, Vec<Vec<Value>>),
    EngineError,
>)
    requires
        is_group_evaluator(*a),
        is_group_decider(*h),
        members_below(gs@, docs@.len() as int),
    ensures
        match r {
            Ok(out) => group_rows(*a, *h, *sel, all_docs(docs@), group_views(gs@)) == Ok::<
                (Seq<Seq<Value>>, Seq<Seq<ValueView>>),
                EngineError,
            >((tuples(out.0@), rows_view(out.1@))) && rows_wf(out.1@) && out.0@.len()
                == out.1@.len(),
            Err(e) => group_rows(*a, *h, *sel, all_docs(docs@), group_views(gs@)) == Err::<
                (Seq<Seq<Value>>, Seq<Seq<ValueView>>),
                EngineError,
            >(e),
        },
{
    let ghost ms = all_docs(docs@);
    let ghost vs = group_views(gs@);
    let exprs = projected_exprs(&sel.items);
    let (order, _) = order_parts(&sel.order_by);
    let mut keys: Vec<Vec<Value>> = Vec::new();
    let mut rows: Vec<Vec<Value>> = Vec::new();
    let mut i: usize = 0;
    proof {
        assert(vs.take(0) =~= Seq::<GroupView>::empty());
        assert(tuples(keys@) =~= Seq::<Seq<Value>>::empty());
        assert(rows_view(rows@) =~= Seq::<Seq<ValueView>>::empty());
    }
    while i < gs.len()
        invariant
            is_group_evaluator(*a),
            is_group_decider(*h),
            members_below(gs@, docs@.len() as int),
            ms == all_docs(docs@),
            vs == group_views(gs@),
            exprs_of(exprs@) == item_exprs(sel.items@),
            exprs_of(order@) == order_exprs(sel.order_by@),
            rows_wf(rows@),
            keys@.len() == rows@.len(),
            i <= gs@.len(),
            group_rows(*a, *h, *sel, ms, vs.take(i as int)) == Ok::<
                (Seq<Seq<Value>>, Seq<Seq<ValueView>>),
                EngineError,
            >((tuples(keys@), rows_view(rows@))),
        decreases gs@.len() - i,
    {
        let ghost ks = tuples(keys@);
        let ghost rs = rows_view(rows@);
        proof {
            assert(vs.take(i + 1).drop_last() =~= vs.take(i as int));
            assert(vs.take(i + 1).last() == gs@[i as int]@);
            assert(in_docs(docs@, gs@[i as int].members@));
            lemma_members(docs@, gs@[i as int].members@);
            assert(exprs_of(exprs@).len() == exprs@.len());
            assert(exprs_of(order@).len() == order@.len());
        }
        let ds = group_refs(docs, &gs[i].members);
        let keep: bool = match keeps_group(h, &sel.having, &ds) {
            Err(e) => {
                proof {
                    lemma_group_rows_fail(*a, *h, *sel, ms, vs, i + 1);
                }
                return Err(e);
            },
            Ok(k) => k,
        };
        if keep {
            let row = match evaluate_tuple(a, &exprs, &ds) {
                Err(e) => {
                    proof {
                        lemma_group_rows_fail(*a, *h, *sel, ms, vs, i + 1);
                    }
                    return Err(e);
                },
                Ok(row) => row,
            };
            let key = match evaluate_tuple(a, &order, &ds) {
                Err(e) => {
                    proof {
                        lemma_group_rows_fail(*a, *h, *sel, ms, vs, i + 1);
                    }
                    return Err(e);
                },
                Ok(key) => key,
            };
            let ghost kv = key@;
            let ghost rv = row_view(row@);
            keys.push(key);
            rows.push(row);
            proof {
                assert(tuples(keys@) =~= ks.push(kv));
                assert(rows_view(rows@) =~= rs.push(rv));
            }
        }
        i = i + 1;
    }
    proof {
        assert(vs.take(vs.len() as int) =~= vs);
    }
    Ok((keys, rows))
}

/// The groups of a grouped query: one of all documents where nothing is grouped
/// by.
pub open spec fn query_groups<
    F: Fn(&Expr, &Document) -> Result<Value, EngineError>,
    K: Fn(&Vec<&Value>) -> Vec<u8>,
>(f: F, k: K, sel: Select, ms: Seq<Fields>) -> Result<Seq<GroupView>, EngineError> {
    if sel.group_by@.len() == 0 {
        Ok(
            seq![
                GroupView { key: Seq::empty(), members: crate::order::places(ms.len()) },
            ],
        )
    } else {
        grouped(f, k, sel.group_by@, ms)
    }
}

fn groups_of_query<
    F: Fn(&Expr, &Document) -> Result<Value, EngineError>,
    K: Fn(&Vec<&Value>) -> Vec<u8>,
>(f: &F, k: &K, sel: &Select, docs: &Vec<Document>) -> (r: Result<Vec<Group>, EngineError>)
    requires
        is_evaluator(*f),
        is_encoder(*k),
    ensures
        match r {
            Ok(gs) => query_groups(*f, *k, *sel, all_docs(docs@)) == Ok::<
                Seq<GroupView>,
                EngineError,
            >(group_views(gs@)) && members_below(gs@, docs@.len() as int),
            Err(e) => query_groups(*f, *k, *sel, all_docs(docs@)) == Err::<
                Seq<GroupView>,
                EngineError,
            >(e),
        },
{
    if sel.group_by.len() > 0 {
        return group_docs(f, k, &sel.group_by, docs);
    }
    let members = all_places(docs.len());
    let g = Group { key: Vec::new(), members };
    let mut gs: Vec<Group> = Vec::new();
    gs.push(g);
    proof {
        assert(g@.key =~= Seq::<u8>::empty());
        assert(group_views(gs@) =~= seq![
            GroupView { key: Seq::empty(), members: crate::order::places(docs@.len()) },
        ]);
    }
    Ok(gs)
}

/// The places of `n` documents.
pub fn all_places(n: usize) -> (r: Vec<usize>)
    ensures
        as_places(r@) == crate::order::places(n as nat),
        r@.len() == n,
        forall|i: int| 0 <= i < n ==> #[trigger] r@[i] == i,
{
    let mut out: Vec<usize> = Vec::new();
    let mut i: usize = 0;
    while i < n
        invariant
            i <= n,
            out@.len() == i,
            forall|k: int| 0 <= k < i ==> #[trigger] out@[k] == k,
        decreases n - i,
    {
        out.push(i);
        i = i + 1;
    }
    proof {
        assert(as_places(out@) =~= crate::order::places(n as nat));
    }
    out
}

/// The result of a grouped query with a row per group.
pub open spec fn aggregated<
    F: Fn(&Expr, &Document) -> Result<Value, EngineError>,
    G: Fn(&Value, &Value) -> Rank,
    K: Fn(&Vec<&Value>) -> Vec<u8>,
    D: Fn(&Vec<&Value>) -> Vec<u8>,
    A: Fn(&Expr, &Vec<&Document>) -> Result<Value, EngineError>,
    H: Fn(&Expr, &Vec<&Document>) -> Result<bool, EngineError>,
>(f: F, g: G, k: K, d: D, a: A, h: H, sel: Select, ms: Seq<Fields>, finalize: bool) -> Result<
    ResultView,
    ErrorView,
> {
    if wildcard(sel) {
        Err(
            ErrorView::Unsupported("`*` cannot be combined with aggregates or GROUP BY"@),
        )
    } else {
        match query_groups(f, k, sel, ms) {
            Err(e) => Err(e@),
            Ok(gs) => match group_rows(a, h, sel, ms, gs) {
                Err(e) => Err(e@),
                Ok((keys, rows)) => {
                    let sorted = if finalize && sel.order_by@.len() > 0 {
                        at_places(rows, key_order(g, keys, order_directions(sel.order_by@), None))
                    } else {
                        rows
                    };
                    let unique = if sel.distinct {
                        deduped(d, sorted)
                    } else {
                        sorted
                    };
                    Ok(
                        ResultView {
                            columns: output_names(sel.items@, Seq::empty()),
                            rows: if finalize {
                                page(unique, sel.offset, sel.limit)
                            } else {
                                unique
                            },
                        },
                    )
                },
            },
        }
    }
}

/// The result of a grouped query with a row per group: groups in the order of
/// first sight, those that `HAVING` drops left out, then sorted, deduplicated
/// and cut to the page. `k` encodes group keys and `d` rows.
pub fn select_aggregate<
    F: Fn(&Expr, &Document) -> Result<Value, EngineError>,
    G: Fn(&Value, &Value) -> Rank,
    K: Fn(&Vec<&Value>) -> Vec<u8>,
    D: Fn(&Vec<&Value>) -> Vec<u8>,
    A: Fn(&Expr, &Vec<&Document>) -> Result<Value, EngineError>,
    H: Fn(&Expr, &Vec<&Document>) -> Result<bool, EngineError>,
>(f: &F, g: &G, k: &K, d: &D, a: &A, h: &H, sel: &Select, docs: &Vec<Document>, finalize: bool) -> (r:
    Result<ResultSet, EngineError>)
    requires
        is_evaluator(*f),
        is_ranking(*g),
        is_encoder(*k),
        is_encoder(*d),
        is_group_evaluator(*a),
        is_group_decider(*h),
    ensures
        match r {
            Ok(rs) => aggregated(*f, *g, *k, *d, *a, *h, *sel, all_docs(docs@), finalize) == Ok::<
                ResultView,
                ErrorView,
            >(rs@) && rows_wf(rs.rows@),
            Err(e) => aggregated(*f, *g, *k, *d, *a, *h, *sel, all_docs(docs@), finalize) == Err::<
                ResultView,
                ErrorView,
            >(e@),
        },
{
    if has_wildcard(sel) {
        return Err(unsupported("`*` cannot be combined with aggregates or GROUP BY"));
    }
    let gs = match groups_of_query(f, k, sel, docs) {
        Err(e) => {
            return Err(e);
        },
        Ok(gs) => gs,
    };
    let (keys, made) = match rows_of_groups(a, h, sel, docs, &gs) {
        Err(e) => {
            return Err(e);
        },
        Ok(out) => out,
    };
    let mut rows = made;
    if finalize && sel.order_by.len() > 0 {
        let (_, descending) = order_parts(&sel.order_by);
        let ps = order_by_keys(g, &keys, &descending, None);
        rows = rows_at(rows, &ps);
    }
    if sel.distinct {
        dedup_rows(&mut rows, d);
    }
    if finalize {
        page_rows(&mut rows, sel.offset, sel.limit);
    }
    let none: Vec<String> = Vec::new();
    proof {
        assert(views(none@) =~= Seq::<Seq<char>>::empty());
    }
    let columns = output_columns(sel, &none);
    Ok(ResultSet { columns, rows })
}

/// Whether a projected item aggregates.
pub open spec fn some_item_aggregates(items: Seq<SelectItem>) -> bool {
    exists|i: int| 0 <= i < items.len() && item_aggregates(#[trigger] items[i])
}

/// Why `GROUP BY ... TOP k BY` cannot run, if it cannot.
pub open spec fn top_check(by: Expr, items: Seq<SelectItem>) -> Result<(), ErrorView> {
    if has_aggregate(by) {
        Err(
            ErrorView::Unsupported(
                "TOP ... BY ranks individual rows — the ranking expression cannot contain an aggregate"@,
            ),
        )
    } else if some_item_aggregates(items) {
        Err(
            ErrorView::Unsupported(
                "with GROUP BY ... TOP the output is the groups' rows, not aggregates — drop the aggregate or the TOP clause"@,
            ),
        )
    } else {
        Ok(())
    }
}

fn check_top(by: &Expr, items: &Vec<SelectItem>) -> (r: Result<(), EngineError>)
    ensures
        crate::database::verdict(r) == top_check(*by, items@),
{
    if contains_aggregate(by) {
        return Err(
            unsupported(
                "TOP ... BY ranks individual rows — the ranking expression cannot contain an aggregate",
            ),
        );
    }
    let mut i: usize = 0;
    while i < items.len()
        invariant
            !has_aggregate(*by),
            i <= items@.len(),
            forall|k: int| 0 <= k < i ==> !item_aggregates(#[trigger] items@[k]),
        decreases items@.len() - i,
    {
        if let SelectItem::Expr { expr, .. } = &items[i] {
            if contains_aggregate(expr) {
                proof {
                    assert(item_aggregates(items@[i as int]));
                }
                return Err(
                    unsupported(
                        "with GROUP BY ... TOP the output is the groups' rows, not aggregates — drop the aggregate or the TOP clause",
                    ),
                );
            }
        }
        i = i + 1;
    }
    Ok(())
}

/// The best rows of one group: its `k` first by the ranking expression; none of
/// a group that `HAVING` drops.
pub open spec fn best_of_group<
    F: Fn(&Expr, &Document) -> Result<Value, EngineError>,
    G: Fn(&Value, &Value) -> Rank,
    H: Fn(&Expr, &Vec<&Document>) -> Result<bool, EngineError>,
>(f: F, g: G, h: H, having: Option<Expr>, top: crate::ast::GroupTop, ms: Seq<Fields>) -> Result<
    Seq<Fields>,
    EngineError,
> {
    match has_group(h, having, ms) {
        Err(e) => Err(e),
        Ok(false) => Ok(Seq::empty()),
        Ok(true) => sorted_docs(
            f,
            g,
            seq![top.by],
            seq![!top.ascending],
            ms,
            Some(top.k as usize),
        ),
    }
}

/// The best rows of groups, one group after the other.
pub open spec fn best_of_groups<
    F: Fn(&Expr, &Document) -> Result<Value, EngineError>,
    G: Fn(&Value, &Value) -> Rank,
    H: Fn(&Expr, &Vec<&Document>) -> Result<bool, EngineError>,
>(
    f: F,
    g: G,
    h: H,
    having: Option<Expr>,
    top: crate::ast::GroupTop,
    ms: Seq<Fields>,
    gs: Seq<GroupView>,
) -> Result<Seq<Fields>, EngineError>
    decreases gs.len(),
{
    if gs.len() == 0 {
        Ok(Seq::empty())
    } else {
        match best_of_groups(f, g, h, having, top, ms, gs.drop_last()) {
            Err(e) => Err(e),
            Ok(kept) => match best_of_group(
                f,
                g,
                h,
                having,
                top,
                at_places(ms, gs.last().members),
            ) {
                Err(e) => Err(e),
                Ok(best) => Ok(kept + best),
            },
        }
    }
}

proof fn lemma_best_fails<
    F: Fn(&Expr, &Document) -> Result<Value, EngineError>,
    G: Fn(&Value, &Value) -> Rank,
    H: Fn(&Expr, &Vec<&Document>) -> Result<bool, EngineError>,
>(
    f: F,
    g: G,
    h: H,
    having: Option<Expr>,
    top: crate::ast::GroupTop,
    ms: Seq<Fields>,
    gs: Seq<GroupView>,
    n: int,
)
    requires
        0 <= n <= gs.len(),
        best_of_groups(f, g, h, having, top, ms, gs.take(n)) is Err,
    ensures
        best_of_groups(f, g, h, having, top, ms, gs) == best_of_groups(
            f,
            g,
            h,
            having,
            top,
            ms,
            gs.take(n),
        ),
    decreases gs.len() - n,
{
    if n == gs.len() {
        assert(gs.take(n) =~= gs);
    } else {
        assert(gs.take(n + 1).drop_last() =~= gs.take(n));
        lemma_best_fails(f, g, h, having, top, ms, gs, n + 1);
    }
}

/// The result of a query for the best rows of each group.
pub open spec fn best_selected<
    F: Fn(&Expr, &Document) -> Result<Value, EngineError>,
    G: Fn(&Value, &Value) -> Rank,
    K: Fn(&Vec<&Value>) -> Vec<u8>,
    D: Fn(&Vec<&Value>) -> Vec<u8>,
    H: Fn(&Expr, &Vec<&Document>) -> Result<bool, EngineError>,
>(
    f: F,
    g: G,
    k: K,
    d: D,
    h: H,
    sel: Select,
    top: crate::ast::GroupTop,
    ms: Seq<Fields>,
    finalize: bool,
) -> Result<ResultView, ErrorView> {
    match top_check(top.by, sel.items@) {
        Err(e) => Err(e),
        Ok(_) => match grouped(f, k, sel.group_by@, ms) {
            Err(e) => Err(e@),
            Ok(gs) => match best_of_groups(f, g, h, sel.having, top, ms, gs) {
                Err(e) => Err(e@),
                Ok(kept) => match selected(f, g, d, sel, kept, false, Set::empty(), finalize) {
                    Err(e) => Err(e@),
                    Ok(rs) => Ok(rs),
                },
            },
        },
    }
}

fn best_places<
    F: Fn(&Expr, &Document) -> Result<Value, EngineError>,
    G: Fn(&Value, &Value) -> Rank,
    H: Fn(&Expr, &Vec<&Document>) -> Result<bool, EngineError>,
>(
    f: &F,
    g: &G,
    h: &H,
    having: &Option<Expr>,
    top: &crate::ast::GroupTop,
    docs: &Vec<Document>,
    members: &Vec<usize>,
) -> (r: Result<Vec<usize>, EngineError>)
    requires
        is_evaluator(*f),
        is_ranking(*g),
        is_group_decider(*h),
        in_docs(docs@, members@),
    ensures
        match r {
            Ok(out) => best_of_group(
                *f,
                *g,
                *h,
                *having,
                *top,
                picked(docs@, members@),
            ) == Ok::<Seq<Fields>, EngineError>(picked(docs@, out@)) && in_docs(docs@, out@),
            Err(e) => best_of_group(*f, *g, *h, *having, *top, picked(docs@, members@)) == Err::<
                Seq<Fields>,
                EngineError,
            >(e),
        },
{
    let ds = group_refs(docs, members);
    let keep: bool = match keeps_group(h, having, &ds) {
        Err(e) => {
            return Err(e);
        },
        Ok(k) => k,
    };
    if !keep {
        let none: Vec<usize> = Vec::new();
        proof {
            assert(picked(docs@, none@) =~= Seq::<Fields>::empty());
        }
        return Ok(none);
    }
    let mut exprs: Vec<&Expr> = Vec::new();
    exprs.push(&top.by);
    let mut descending: Vec<bool> = Vec::new();
    descending.push(!top.ascending);
    let mut chosen: Vec<usize> = Vec::new();
    let mut i: usize = 0;
    while i < members.len()
        invariant
            i <= members@.len(),
            chosen@ == members@.take(i as int),
        decreases members@.len() - i,
    {
        chosen.push(members[i]);
        proof {
            assert(chosen@ =~= members@.take(i + 1));
        }
        i = i + 1;
    }
    proof {
        assert(chosen@ =~= members@);
        assert(exprs_of(exprs@) =~= seq![top.by]);
        assert(descending@ =~= seq![!top.ascending]);
    }
    sort_docs(f, g, &exprs, &descending, docs, chosen, Some(top.k as usize))
}

/// The result of `GROUP BY ... TOP k BY <expr>`: the `k` best rows of each
/// group, groups in the order of first sight, projected like the rows of any
/// query.
pub fn select_group_topk<
    F: Fn(&Expr, &Document) -> Result<Value, EngineError>,
    G: Fn(&Value, &Value) -> Rank,
    K: Fn(&Vec<&Value>) -> Vec<u8>,
    D: Fn(&Vec<&Value>) -> Vec<u8>,
    H: Fn(&Expr, &Vec<&Document>) -> Result<bool, EngineError>,
>(
    f: &F,
    g: &G,
    k: &K,
    d: &D,
    h: &H,
    sel: &Select,
    top: &crate::ast::GroupTop,
    docs: &Vec<Document>,
    finalize: bool,
) -> (r: Result<ResultSet, EngineError>)
    requires
        is_evaluator(*f),
        is_ranking(*g),
        is_encoder(*k),
        is_encoder(*d),
        is_group_decider(*h),
        docs_wf(docs@),
    ensures
        match r {
            Ok(rs) => best_selected(
                *f,
                *g,
                *k,
                *d,
                *h,
                *sel,
                *top,
                all_docs(docs@),
                finalize,
            ) == Ok::<ResultView, ErrorView>(rs@) && rows_wf(rs.rows@),
            Err(e) => best_selected(
                *f,
                *g,
                *k,
                *d,
                *h,
                *sel,
                *top,
                all_docs(docs@),
                finalize,
            ) == Err::<ResultView, ErrorView>(e@),
        },
{
    match check_top(&top.by, &sel.items) {
        Err(e) => {
            return Err(e);
        },
        Ok(_) => {},
    }
    let gs = match group_docs(f, k, &sel.group_by, docs) {
        Err(e) => {
            return Err(e);
        },
        Ok(gs) => gs,
    };
    let ghost ms = all_docs(docs@);
    let ghost vs = group_views(gs@);
    let mut kept: Vec<usize> = Vec::new();
    let mut i: usize = 0;
    proof {
        assert(vs.take(0) =~= Seq::<GroupView>::empty());
        assert(picked(docs@, kept@) =~= Seq::<Fields>::empty());
    }
    while i < gs.len()
        invariant
            is_evaluator(*f),
            is_ranking(*g),
            is_group_decider(*h),
            members_below(gs@, docs@.len() as int),
            ms == all_docs(docs@),
            vs == group_views(gs@),
            top_check(top.by, sel.items@) is Ok,
            grouped(*f, *k, sel.group_by@, ms) == Ok::<Seq<GroupView>, EngineError>(vs),
            in_docs(docs@, kept@),
            i <= gs@.len(),
            best_of_groups(*f, *g, *h, sel.having, *top, ms, vs.take(i as int)) == Ok::<
                Seq<Fields>,
                EngineError,
            >(picked(docs@, kept@)),
        decreases gs@.len() - i,
    {
        proof {
            assert(vs.take(i + 1).drop_last() =~= vs.take(i as int));
            assert(vs.take(i + 1).last() == gs@[i as int]@);
            assert(in_docs(docs@, gs@[i as int].members@));
            lemma_members(docs@, gs@[i as int].members@);
        }
        match best_places(f, g, h, &sel.having, top, docs, &gs[i].members) {
            Err(e) => {
                proof {
                    lemma_best_fails(*f, *g, *h, sel.having, *top, ms, vs, i + 1);
                }
                return Err(e);
            },
            Ok(best) => {
                let mut more = best;
                let ghost a = kept@;
                let ghost b = more@;
                kept.append(&mut more);
                proof {
                    assert(kept@ =~= a + b);
                    assert(picked(docs@, kept@) =~= picked(docs@, a) + picked(docs@, b));
                }
            },
        }
        i = i + 1;
    }
    proof {
        assert(vs.take(vs.len() as int) =~= vs);
    }
    let hide = NameSet::new();
    select_rows(f, g, d, sel, docs, kept, false, &hide, finalize)
}

/// What a query shows of gathered documents: rows per group, the best rows of
/// each group, or rows per document.
pub open spec fn projected<
    F: Fn(&Expr, &Document) -> Result<Value, EngineError>,
    G: Fn(&Value, &Value) -> Rank,
    K: Fn(&Vec<&Value>) -> Vec<u8>,
    D: Fn(&Vec<&Value>) -> Vec<u8>,
    A: Fn(&Expr, &Vec<&Document>) -> Result<Value, EngineError>,
    H: Fn(&Expr, &Vec<&Document>) -> Result<bool, EngineError>,
>(
    f: F,
    g: G,
    k: K,
    d: D,
    a: A,
    h: H,
    sel: Select,
    ms: Seq<Fields>,
    presorted: bool,
    hide: Set<Seq<char>>,
    finalize: bool,
) -> Result<ResultView, ErrorView> {
    if !crate::projection::grouped(sel) {
        match selected(f, g, d, sel, ms, presorted, hide, finalize) {
            Err(e) => Err(e@),
            Ok(rs) => Ok(rs),
        }
    } else {
        match sel.group_top {
            Some(top) => best_selected(f, g, k, d, h, sel, top, ms, finalize),
            None => aggregated(f, g, k, d, a, h, sel, ms, finalize),
        }
    }
}

/// What a query shows of gathered documents. `presorted` says that they came
/// in the query's order, and the fields in `hide` are left out of `*`.
pub fn project<
    F: Fn(&Expr, &Document) -> Result<Value, EngineError>,
    G: Fn(&Value, &Value) -> Rank,
    K: Fn(&Vec<&Value>) -> Vec<u8>,
    D: Fn(&Vec<&Value>) -> Vec<u8>,
    A: Fn(&Expr, &Vec<&Document>) -> Result<Value, EngineError>,
    H: Fn(&Expr, &Vec<&Document>) -> Result<bool, EngineError>,
>(
    f: &F,
    g: &G,
    k: &K,
    d: &D,
    a: &A,
    h: &H,
    sel: &Select,
    docs: &Vec<Document>,
    presorted: bool,
    hide: &NameSet,
    finalize: bool,
) -> (r: Result<ResultSet, EngineError>)
    requires
        is_evaluator(*f),
        is_ranking(*g),
        is_encoder(*k),
        is_encoder(*d),
        is_group_evaluator(*a),
        is_group_decider(*h),
        docs_wf(docs@),
        hide.wf(),
    ensures
        match r {
            Ok(rs) => projected(
                *f,
                *g,
                *k,
                *d,
                *a,
                *h,
                *sel,
                all_docs(docs@),
                presorted,
                hide@,
                finalize,
            ) == Ok::<ResultView, ErrorView>(rs@) && rows_wf(rs.rows@),
            Err(e) => projected(
                *f,
                *g,
                *k,
                *d,
                *a,
                *h,
                *sel,
                all_docs(docs@),
                presorted,
                hide@,
                finalize,
            ) == Err::<ResultView, ErrorView>(e@),
        },
{
    if is_grouped(sel) {
        return match &sel.group_top {
            Some(top) => select_group_topk(f, g, k, d, h, sel, top, docs, finalize),
            None => select_aggregate(f, g, k, d, a, h, sel, docs, finalize),
        };
    }
    let chosen = all_places(docs.len());
    proof {
        assert(picked(docs@, chosen@) =~= all_docs(docs@));
    }
    select_rows(f, g, d, sel, docs, chosen, presorted, hide, finalize)
}

} // verus!
