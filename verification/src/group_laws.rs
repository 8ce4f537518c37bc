//! What the groups of a query are, which of them it shows, and in what order.

use vstd::prelude::*;

use crate::ast::Expr;
use crate::ast::GroupTop;
use crate::ast::OrderKey;
use crate::ast::Select;
use crate::ast::SelectItem;
use crate::error::EngineError;
use crate::execute::encoding;
use crate::execute::evaluated;
use crate::execute::row_view;
use crate::grouping::aggregated;
use crate::grouping::best_of_group;
use crate::grouping::best_of_groups;
use crate::grouping::group_decided;
use crate::grouping::group_evaluated;
use crate::grouping::group_key;
use crate::grouping::group_place;
use crate::grouping::group_row;
use crate::grouping::group_rows;
use crate::grouping::group_tuple;
use crate::grouping::group_values;
use crate::grouping::grouped;
use crate::grouping::item_exprs;
use crate::grouping::query_groups;
use crate::grouping::GroupView;
use crate::model::value_view;
use crate::model::Fields;
use crate::model::ValueView;
use crate::order::Rank;
use crate::projection::wildcard;
use crate::results::at_places;
use crate::results::deduped;
use crate::results::key_order;
use crate::results::order_directions;
use crate::results::order_exprs;
use crate::select_laws::are_the_firsts;
use crate::select_laws::columns_are_named;
use crate::select_laws::dedup_keeps_the_first_of_each;
use crate::select_laws::go_up;
use crate::select_laws::names_columns;
use crate::select_laws::page_from;
use crate::select_laws::page_is_a_run;
use crate::select_laws::page_to;
use crate::sort_laws::are_places;
use crate::sort_laws::documents_are_sorted;
use crate::sort_laws::keys_are_sorted;
use crate::sort_laws::keys_stand;
use crate::sort_laws::orders_values;
use crate::sort_laws::stand_sorted;
use crate::value::Document;
use crate::value::Value;

verus! {

/// Whether a key is that of a document: the encoding of the values of the
/// `GROUP BY` expressions on it.
pub open spec fn is_key_of<
    F: Fn(&Expr, &Document) -> Result<Value, EngineError>,
    K: Fn(&Vec<&Value>) -> Vec<u8>,
>(f: F, k: K, group_by: Seq<Expr>, m: Fields, key: Seq<u8>) -> bool {
    &&& forall|i: int| 0 <= i < group_by.len() ==> evaluated(f, #[trigger] group_by[i], m) is Ok
    &&& key == encoding(
        k,
        Seq::new(group_by.len(), |i: int| value_view(evaluated(f, group_by[i], m)->Ok_0)),
    )
}

proof fn lemma_group_values<F: Fn(&Expr, &Document) -> Result<Value, EngineError>>(
    f: F,
    group_by: Seq<Expr>,
    m: Fields,
    n: nat,
)
    requires
        n <= group_by.len(),
    ensures
        group_values(f, group_by, m, n) is Ok <==> forall|i: int|
            0 <= i < n ==> evaluated(f, #[trigger] group_by[i], m) is Ok,
        group_values(f, group_by, m, n) matches Ok(vs) ==> vs == Seq::new(
            n,
            |i: int| value_view(evaluated(f, group_by[i], m)->Ok_0),
        ),
    decreases n,
{
    if n > 0 {
        lemma_group_values(f, group_by, m, (n - 1) as nat);
        if group_values(f, group_by, m, n) is Ok {
            assert(group_values(f, group_by, m, n)->Ok_0 =~= Seq::new(
                n,
                |i: int| value_view(evaluated(f, group_by[i], m)->Ok_0),
            ));
        }
    } else {
        assert(Seq::new(n, |i: int| value_view(evaluated(f, group_by[i], m)->Ok_0))
            =~= Seq::<ValueView>::empty());
    }
}

/// The key that a document is grouped by is that of its values.
pub proof fn group_keys_are_of_the_documents<
    F: Fn(&Expr, &Document) -> Result<Value, EngineError>,
    K: Fn(&Vec<&Value>) -> Vec<u8>,
>(f: F, k: K, group_by: Seq<Expr>, m: Fields, key: Seq<u8>)
    ensures
        group_key(f, k, group_by, m) == Ok::<Seq<u8>, EngineError>(key) <==> is_key_of(
            f,
            k,
            group_by,
            m,
            key,
        ),
{
    lemma_group_values(f, group_by, m, group_by.len());
}

/// Whether groups part documents by their keys: each group holds, in order,
/// just the places of the documents with its key, and there is no group without
/// a document and none twice.
pub open spec fn parts_by_key<
    F: Fn(&Expr, &Document) -> Result<Value, EngineError>,
    K: Fn(&Vec<&Value>) -> Vec<u8>,
>(f: F, k: K, group_by: Seq<Expr>, ms: Seq<Fields>, gs: Seq<GroupView>) -> bool {
    &&& forall|i: int|
        0 <= i < gs.len() ==> go_up((#[trigger] gs[i]).members, ms.len() as int)
            && gs[i].members.len() > 0
    &&& forall|i: int, p: int|
        0 <= i < gs.len() && 0 <= p < ms.len() ==> (#[trigger] gs[i].members.contains(p)
            <==> is_key_of(f, k, group_by, ms[p], gs[i].key))
    &&& forall|p: int|
        0 <= p < ms.len() ==> exists|i: int|
            0 <= i < gs.len() && is_key_of(f, k, group_by, #[trigger] ms[p], (#[trigger] gs[i]).key)
    &&& forall|i: int, j: int|
        0 <= i < j < gs.len() ==> (#[trigger] gs[i]).key != (#[trigger] gs[j]).key
    &&& forall|i: int, j: int|
        0 <= i < j < gs.len() ==> (#[trigger] gs[i]).members[0] < (#[trigger] gs[j]).members[0]
}

proof fn lemma_place(gs: Seq<GroupView>, key: Seq<u8>)
    ensures
        0 <= group_place(gs, key) <= gs.len(),
        group_place(gs, key) < gs.len() ==> gs[group_place(gs, key)].key == key,
        forall|i: int| 0 <= i < group_place(gs, key) ==> (#[trigger] gs[i]).key != key,
    decreases gs.len(),
{
    if gs.len() > 0 && gs[0].key != key {
        let rest = gs.skip(1);
        lemma_place(rest, key);
        assert forall|i: int| 0 <= i < group_place(gs, key) implies (#[trigger] gs[i]).key != key by {
            if i > 0 {
                assert(gs[i] == rest[i - 1]);
            }
        }
    }
}

/// `GROUP BY` parts the documents by the values of its expressions: two are in
/// one group where their values encode alike, each is in just one, and the
/// groups come in the order of their first documents.
pub proof fn documents_are_parted_by_key<
    F: Fn(&Expr, &Document) -> Result<Value, EngineError>,
    K: Fn(&Vec<&Value>) -> Vec<u8>,
>(f: F, k: K, group_by: Seq<Expr>, ms: Seq<Fields>)
    ensures
        grouped(f, k, group_by, ms) matches Ok(gs) ==> parts_by_key(f, k, group_by, ms, gs),
    decreases ms.len(),
{
    if ms.len() > 0 && grouped(f, k, group_by, ms) is Ok {
        let init = ms.drop_last();
        let n = ms.len() - 1;
        let before = grouped(f, k, group_by, init)->Ok_0;
        let gs = grouped(f, k, group_by, ms)->Ok_0;
        let key = group_key(f, k, group_by, ms.last())->Ok_0;
        documents_are_parted_by_key(f, k, group_by, init);
        group_keys_are_of_the_documents(f, k, group_by, ms.last(), key);
        lemma_place(before, key);
        let at = group_place(before, key);
        assert(forall|p: int| 0 <= p < n ==> #[trigger] ms[p] == init[p]);
        assert(forall|i: int|
            0 <= i < before.len() && i != at ==> #[trigger] gs[i] == before[i]);
        assert(gs[at].key == key);
        assert(at < before.len() ==> gs[at].members == before[at].members.push(n));
        assert(at == before.len() ==> gs[at].members == seq![n]);
        assert forall|i: int| 0 <= i < gs.len() implies go_up(
            (#[trigger] gs[i]).members,
            ms.len() as int,
        ) && gs[i].members.len() > 0 by {
            if i < before.len() {
                assert(go_up(before[i].members, n));
            }
        }
        assert forall|i: int, p: int| 0 <= i < gs.len() && 0 <= p < ms.len() implies (
        #[trigger] gs[i].members.contains(p) <==> is_key_of(f, k, group_by, ms[p], gs[i].key)) by {
            lemma_member_added(f, k, group_by, ms, before, gs, key, at, i, p);
        }
        assert forall|p: int| 0 <= p < ms.len() implies exists|i: int|
            0 <= i < gs.len() && is_key_of(
                f,
                k,
                group_by,
                #[trigger] ms[p],
                (#[trigger] gs[i]).key,
            ) by {
            if p < n {
                assert(ms[p] == init[p]);
                let i = choose|i: int|
                    0 <= i < before.len() && is_key_of(
                        f,
                        k,
                        group_by,
                        init[p],
                        (#[trigger] before[i]).key,
                    );
                assert(gs[i].key == before[i].key);
            } else {
                assert(is_key_of(f, k, group_by, ms[p], gs[at].key));
            }
        }
        assert forall|i: int, j: int| 0 <= i < j < gs.len() implies (#[trigger] gs[i]).key != (
        #[trigger] gs[j]).key by {
            if j < before.len() {
                assert(before[i].key != before[j].key);
            }
        }
        assert forall|i: int, j: int| 0 <= i < j < gs.len() implies (#[trigger] gs[i]).members[0]
            < (#[trigger] gs[j]).members[0] by {
            assert(go_up(before[i].members, n));
            if j < before.len() {
                assert(before[i].members[0] < before[j].members[0]);
            }
        }
    }
}

proof fn lemma_member_added<
    F: Fn(&Expr, &Document) -> Result<Value, EngineError>,
    K: Fn(&Vec<&Value>) -> Vec<u8>,
>(
    f: F,
    k: K,
    group_by: Seq<Expr>,
    ms: Seq<Fields>,
    before: Seq<GroupView>,
    gs: Seq<GroupView>,
    key: Seq<u8>,
    at: int,
    i: int,
    p: int,
)
    requires
        ms.len() > 0,
        parts_by_key(f, k, group_by, ms.drop_last(), before),
        is_key_of(f, k, group_by, ms.last(), key),
        0 <= at <= before.len(),
        at < before.len() ==> before[at].key == key,
        at == before.len() ==> forall|q: int|
            0 <= q < before.len() ==> (#[trigger] before[q]).key != key,
        gs.len() == (if at < before.len() {
            before.len()
        } else {
            before.len() + 1
        }),
        forall|q: int| 0 <= q < before.len() && q != at ==> #[trigger] gs[q] == before[q],
        gs[at].key == key,
        at < before.len() ==> gs[at].members == before[at].members.push(ms.len() - 1),
        at == before.len() ==> gs[at].members == seq![ms.len() - 1],
        0 <= i < gs.len(),
        0 <= p < ms.len(),
    ensures
        gs[i].members.contains(p) <==> is_key_of(f, k, group_by, ms[p], gs[i].key),
{
    let init = ms.drop_last();
    let n = ms.len() - 1;
    if i < before.len() {
        let old = before[i].members;
        assert(go_up(old, n));
        assert(!old.contains(n)) by {
            if old.contains(n) {
                let q = choose|q: int| 0 <= q < old.len() && old[q] == n;
                assert(old[q] < n);
            }
        }
        if p < n {
            assert(ms[p] == init[p]);
            assert(before[i].members.contains(p) <==> is_key_of(
                f,
                k,
                group_by,
                init[p],
                before[i].key,
            ));
        }
        if i == at {
            let now = old.push(n);
            assert(now[old.len() as int] == n);
            if old.contains(p) {
                let q = choose|q: int| 0 <= q < old.len() && old[q] == p;
                assert(now[q] == p);
            }
            if now.contains(p) && p < n {
                let q = choose|q: int| 0 <= q < now.len() && now[q] == p;
                assert(old[q] == p);
            }
        } else if p == n {
            if at < before.len() {
                if i < at {
                    assert(before[i].key != before[at].key);
                } else {
                    assert(before[at].key != before[i].key);
                }
            }
        }
    } else {
        let now = seq![n];
        assert(now[0] == n);
        if p < n {
            assert(ms[p] == init[p]);
            let q = choose|q: int|
                0 <= q < before.len() && is_key_of(
                    f,
                    k,
                    group_by,
                    init[p],
                    (#[trigger] before[q]).key,
                );
            assert(before[q].key != key);
            if now.contains(p) {
                let z = choose|z: int| 0 <= z < now.len() && now[z] == p;
                assert(now[z] == n);
            }
        }
    }
}

/// Without `GROUP BY` all documents are one group.
pub proof fn without_group_by_all_are_one_group<
    F: Fn(&Expr, &Document) -> Result<Value, EngineError>,
    K: Fn(&Vec<&Value>) -> Vec<u8>,
>(f: F, k: K, sel: Select, ms: Seq<Fields>)
    ensures
        sel.group_by@.len() == 0 ==> query_groups(f, k, sel, ms) is Ok && query_groups(
            f,
            k,
            sel,
            ms,
        )->Ok_0.len() == 1 && at_places(ms, query_groups(f, k, sel, ms)->Ok_0[0].members) == ms,
        sel.group_by@.len() > 0 ==> (query_groups(f, k, sel, ms) matches Ok(gs) ==> parts_by_key(
            f,
            k,
            sel.group_by@,
            ms,
            gs,
        )),
{
    if sel.group_by@.len() == 0 {
        let gs = query_groups(f, k, sel, ms)->Ok_0;
        assert(at_places(ms, gs[0].members) =~= ms);
    } else {
        documents_are_parted_by_key(f, k, sel.group_by@, ms);
    }
}

/// Whether `HAVING` is true of a group.
pub open spec fn having_holds<H: Fn(&Expr, &Vec<&Document>) -> Result<bool, EngineError>>(
    h: H,
    having: Option<Expr>,
    ms: Seq<Fields>,
) -> bool {
    having matches Some(e) ==> group_decided(h, e, ms) == Ok::<bool, EngineError>(true)
}

/// Whether a row shows a group: for each projected expression its value over
/// the group.
pub open spec fn shows_group<A: Fn(&Expr, &Vec<&Document>) -> Result<Value, EngineError>>(
    a: A,
    items: Seq<SelectItem>,
    ms: Seq<Fields>,
    row: Seq<ValueView>,
) -> bool {
    &&& row.len() == items.len()
    &&& forall|i: int|
        0 <= i < items.len() ==> ((#[trigger] items[i]) matches SelectItem::Expr { expr, .. }
            && group_evaluated(a, expr, ms) is Ok && row[i] == value_view(
            group_evaluated(a, expr, ms)->Ok_0,
        ))
}

/// Whether a sort key is that of a group.
pub open spec fn is_key_of_group<A: Fn(&Expr, &Vec<&Document>) -> Result<Value, EngineError>>(
    a: A,
    order_by: Seq<OrderKey>,
    ms: Seq<Fields>,
    key: Seq<Value>,
) -> bool {
    &&& key.len() == order_by.len()
    &&& forall|i: int|
        0 <= i < order_by.len() ==> group_evaluated(a, (#[trigger] order_by[i]).expr, ms) == Ok::<
            Value,
            EngineError,
        >(key[i])
}

proof fn lemma_group_tuple<A: Fn(&Expr, &Vec<&Document>) -> Result<Value, EngineError>>(
    a: A,
    es: Seq<Expr>,
    ms: Seq<Fields>,
    n: nat,
)
    requires
        n <= es.len(),
    ensures
        group_tuple(a, es, ms, n) matches Ok(vs) ==> vs.len() == n && forall|i: int|
            0 <= i < n ==> group_evaluated(a, es[i], ms) == Ok::<Value, EngineError>(
                #[trigger] vs[i],
            ),
    decreases n,
{
    if n > 0 {
        lemma_group_tuple(a, es, ms, (n - 1) as nat);
    }
}

proof fn lemma_item_exprs(items: Seq<SelectItem>)
    requires
        forall|i: int| 0 <= i < items.len() ==> !((#[trigger] items[i]) is Wildcard),
    ensures
        item_exprs(items).len() == items.len(),
        forall|i: int|
            0 <= i < items.len() ==> (items[i] matches SelectItem::Expr { expr, .. } && expr
                == #[trigger] item_exprs(items)[i]),
    decreases items.len(),
{
    if items.len() > 0 {
        assert(!(items[items.len() - 1] is Wildcard));
        let init = items.drop_last();
        assert forall|i: int| 0 <= i < init.len() implies !((#[trigger] init[i]) is Wildcard) by {
            assert(!(items[i] is Wildcard));
        }
        lemma_item_exprs(init);
        assert forall|i: int| 0 <= i < items.len() implies (items[i] matches SelectItem::Expr {
            expr,
            ..
        } && expr == #[trigger] item_exprs(items)[i]) by {
            if i < init.len() {
                assert(init[i] == items[i]);
                assert(item_exprs(items)[i] == item_exprs(init)[i]);
            }
        }
    }
}

/// A group's row shows its projected expressions, beside the sort key of the
/// group; a group that `HAVING` is not true of has none.
pub proof fn a_group_has_its_row<
    A: Fn(&Expr, &Vec<&Document>) -> Result<Value, EngineError>,
    H: Fn(&Expr, &Vec<&Document>) -> Result<bool, EngineError>,
>(a: A, h: H, sel: Select, ms: Seq<Fields>)
    requires
        !wildcard(sel),
    ensures
        group_row(a, h, sel, ms) matches Ok(r) ==> (r is Some <==> having_holds(
            h,
            sel.having,
            ms,
        )),
        group_row(a, h, sel, ms) matches Ok(Some((key, row))) ==> shows_group(
            a,
            sel.items@,
            ms,
            row,
        ) && is_key_of_group(a, sel.order_by@, ms, key),
{
    let es = item_exprs(sel.items@);
    let ks = order_exprs(sel.order_by@);
    lemma_group_tuple(a, es, ms, es.len());
    lemma_group_tuple(a, ks, ms, ks.len());
    lemma_item_exprs(sel.items@);
    if let Ok(Some((key, row))) = group_row(a, h, sel, ms) {
        let vs = group_tuple(a, es, ms, es.len())->Ok_0;
        assert(row == row_view(vs));
        assert forall|i: int| 0 <= i < sel.items@.len() implies ((
        #[trigger] sel.items@[i]) matches SelectItem::Expr { expr, .. } && group_evaluated(
            a,
            expr,
            ms,
        ) is Ok && row[i] == value_view(group_evaluated(a, expr, ms)->Ok_0)) by {
            assert(group_evaluated(a, es[i], ms) == Ok::<Value, EngineError>(vs[i]));
            assert(sel.items@[i] matches SelectItem::Expr { expr, .. } && expr == es[i]);
        }
        assert forall|i: int| 0 <= i < sel.order_by@.len() implies group_evaluated(
            a,
            (#[trigger] sel.order_by@[i]).expr,
            ms,
        ) == Ok::<Value, EngineError>(key[i]) by {
            assert(ks[i] == sel.order_by@[i].expr);
            assert(group_evaluated(a, ks[i], ms) == Ok::<Value, EngineError>(key[i]));
        }
    }
}

/// The documents of a group.
pub open spec fn members_of(ms: Seq<Fields>, g: GroupView) -> Seq<Fields> {
    Seq::new(g.members.len(), |i: int| ms[g.members[i]])
}

/// Whether `qs` are the places of the groups that `HAVING` is true of, in
/// order.
pub open spec fn are_the_kept<H: Fn(&Expr, &Vec<&Document>) -> Result<bool, EngineError>>(
    h: H,
    having: Option<Expr>,
    ms: Seq<Fields>,
    gs: Seq<GroupView>,
    qs: Seq<int>,
) -> bool {
    &&& go_up(qs, gs.len() as int)
    &&& forall|i: int|
        0 <= i < gs.len() ==> (qs.contains(i) <==> having_holds(
            h,
            having,
            members_of(ms, #[trigger] gs[i]),
        ))
}

/// The groups that `HAVING` is true of have a row each, in the order of the
/// groups, and the others have none.
pub proof fn having_keeps_what_it_is_true_of<
    A: Fn(&Expr, &Vec<&Document>) -> Result<Value, EngineError>,
    H: Fn(&Expr, &Vec<&Document>) -> Result<bool, EngineError>,
>(a: A, h: H, sel: Select, ms: Seq<Fields>, gs: Seq<GroupView>) -> (qs: Seq<int>)
    requires
        !wildcard(sel),
    ensures
        group_rows(a, h, sel, ms, gs) matches Ok((keys, rows)) ==> {
            &&& are_the_kept(h, sel.having, ms, gs, qs)
            &&& keys.len() == qs.len()
            &&& rows.len() == qs.len()
            &&& forall|i: int|
                0 <= i < qs.len() ==> shows_group(
                    a,
                    sel.items@,
                    members_of(ms, gs[qs[i]]),
                    #[trigger] rows[i],
                )
            &&& forall|i: int|
                0 <= i < qs.len() ==> is_key_of_group(
                    a,
                    sel.order_by@,
                    members_of(ms, gs[qs[i]]),
                    #[trigger] keys[i],
                )
        },
    decreases gs.len(),
{
    if gs.len() == 0 {
        Seq::empty()
    } else {
        let init = gs.drop_last();
        let n = gs.len() - 1;
        let before = having_keeps_what_it_is_true_of(a, h, sel, ms, init);
        if group_rows(a, h, sel, ms, gs) is Err {
            before
        } else {
            let (k0, r0) = group_rows(a, h, sel, ms, init)->Ok_0;
            let (keys, rows) = group_rows(a, h, sel, ms, gs)->Ok_0;
            let docs = at_places(ms, gs.last().members);
            assert(docs =~= members_of(ms, gs[n]));
            a_group_has_its_row(a, h, sel, docs);
            let keeps = having_holds(h, sel.having, docs);
            let qs = if keeps {
                before.push(n)
            } else {
                before
            };
            assert(!before.contains(n)) by {
                if before.contains(n) {
                    let i = choose|i: int| 0 <= i < before.len() && before[i] == n;
                    assert(before[i] < n);
                }
            }
            assert forall|i: int| 0 <= i < gs.len() implies (qs.contains(i) <==> having_holds(
                h,
                sel.having,
                members_of(ms, #[trigger] gs[i]),
            )) by {
                if i < n {
                    assert(init[i] == gs[i]);
                    assert(before.contains(i) <==> having_holds(
                        h,
                        sel.having,
                        members_of(ms, init[i]),
                    ));
                    if before.contains(i) {
                        let q = choose|q: int| 0 <= q < before.len() && before[q] == i;
                        assert(qs[q] == i);
                    }
                    if qs.contains(i) {
                        let q = choose|q: int| 0 <= q < qs.len() && qs[q] == i;
                        assert(before[q] == i);
                    }
                } else if keeps {
                    assert(qs[before.len() as int] == n);
                }
            }
            assert forall|i: int| 0 <= i < qs.len() implies shows_group(
                a,
                sel.items@,
                members_of(ms, gs[qs[i]]),
                #[trigger] rows[i],
            ) by {
                if i < before.len() {
                    assert(rows[i] == r0[i]);
                    assert(init[before[i]] == gs[qs[i]]);
                }
            }
            assert forall|i: int| 0 <= i < qs.len() implies is_key_of_group(
                a,
                sel.order_by@,
                members_of(ms, gs[qs[i]]),
                #[trigger] keys[i],
            ) by {
                if i < before.len() {
                    assert(keys[i] == k0[i]);
                    assert(init[before[i]] == gs[qs[i]]);
                }
            }
            qs
        }
    }
}

/// Whether a result shows the groups of a query: of the groups that `HAVING` is
/// true of, at `qs`, each has a row; they stand in the order of their sort keys
/// where the query sorts, else in the order of the groups; `DISTINCT` lets
/// those go that repeat an earlier one; and the page is cut out of what is
/// left.
pub open spec fn shows_groups<
    G: Fn(&Value, &Value) -> Rank,
    D: Fn(&Vec<&Value>) -> Vec<u8>,
    A: Fn(&Expr, &Vec<&Document>) -> Result<Value, EngineError>,
    H: Fn(&Expr, &Vec<&Document>) -> Result<bool, EngineError>,
>(
    g: G,
    d: D,
    a: A,
    h: H,
    sel: Select,
    ms: Seq<Fields>,
    gs: Seq<GroupView>,
    finalize: bool,
    out: Seq<Seq<ValueView>>,
    w: GroupOrder,
) -> bool {
    let lo = if finalize {
        page_from(w.left.len() as int, sel.offset)
    } else {
        0
    };
    let hi = if finalize {
        page_to(w.left.len() as int, sel.offset, sel.limit)
    } else {
        w.left.len() as int
    };
    &&& are_the_kept(h, sel.having, ms, gs, w.kept)
    &&& w.keys.len() == w.kept.len()
    &&& forall|i: int|
        0 <= i < w.kept.len() ==> is_key_of_group(
            a,
            sel.order_by@,
            members_of(ms, gs[w.kept[i]]),
            #[trigger] w.keys[i],
        )
    &&& w.whole.len() == w.kept.len()
    &&& are_places(w.whole, w.kept.len())
    &&& if finalize && sel.order_by@.len() > 0 {
        keys_stand(
            g,
            w.keys,
            Seq::new(sel.order_by@.len(), |i: int| sel.order_by@[i].descending),
            w.whole,
        )
    } else {
        forall|i: int| 0 <= i < w.whole.len() ==> #[trigger] w.whole[i] == i
    }
    &&& w.rows.len() == w.kept.len()
    &&& forall|i: int|
        0 <= i < w.rows.len() ==> shows_group(
            a,
            sel.items@,
            members_of(ms, gs[w.kept[w.whole[i]]]),
            #[trigger] w.rows[i],
        )
    &&& if sel.distinct {
        are_the_firsts(d, w.rows, w.left)
    } else {
        w.left == Seq::new(w.rows.len(), |i: int| i)
    }
    &&& out.len() == hi - lo
    &&& forall|i: int| 0 <= i < out.len() ==> #[trigger] out[i] == w.rows[w.left[lo + i]]
}

/// How the groups of a query come to its rows.
pub struct GroupOrder {
    /// The groups that `HAVING` keeps.
    pub kept: Seq<int>,
    /// Their sort keys.
    pub keys: Seq<Seq<Value>>,
    /// The places of the kept groups in the order of the sort keys.
    pub whole: Seq<int>,
    /// Their rows in that order.
    pub rows: Seq<Seq<ValueView>>,
    /// The rows left without duplicates.
    pub left: Seq<int>,
}

/// A grouped query shows its groups: a row for each that `HAVING` is true of,
/// in the order of the sort keys, without duplicates under `DISTINCT`, cut to
/// the page.
#[verifier::rlimit(80)]
#[verifier::spinoff_prover]
pub proof fn grouped_queries_show_their_groups<
    F: Fn(&Expr, &Document) -> Result<Value, EngineError>,
    G: Fn(&Value, &Value) -> Rank,
    K: Fn(&Vec<&Value>) -> Vec<u8>,
    D: Fn(&Vec<&Value>) -> Vec<u8>,
    A: Fn(&Expr, &Vec<&Document>) -> Result<Value, EngineError>,
    H: Fn(&Expr, &Vec<&Document>) -> Result<bool, EngineError>,
>(f: F, g: G, k: K, d: D, a: A, h: H, sel: Select, ms: Seq<Fields>, finalize: bool) -> (w:
    GroupOrder)
    requires
        orders_values(g),
    ensures
        wildcard(sel) ==> aggregated(f, g, k, d, a, h, sel, ms, finalize) is Err,
        aggregated(f, g, k, d, a, h, sel, ms, finalize) matches Ok(rs) ==> {
            &&& query_groups(f, k, sel, ms) is Ok
            &&& names_columns(sel.items@, Seq::empty(), rs.columns)
            &&& shows_groups(
                g,
                d,
                a,
                h,
                sel,
                ms,
                query_groups(f, k, sel, ms)->Ok_0,
                finalize,
                rs.rows,
                w,
            )
        },
{
    let none = GroupOrder {
        kept: Seq::empty(),
        keys: Seq::empty(),
        whole: Seq::empty(),
        rows: Seq::empty(),
        left: Seq::empty(),
    };
    if aggregated(f, g, k, d, a, h, sel, ms, finalize) is Err {
        none
    } else {
        let gs = query_groups(f, k, sel, ms)->Ok_0;
        let (keys, rows0) = group_rows(a, h, sel, ms, gs)->Ok_0;
        let kept = having_keeps_what_it_is_true_of(a, h, sel, ms, gs);
        let ds = order_directions(sel.order_by@);
        columns_are_named(sel.items@, Seq::empty());
        assert(ds =~= Seq::new(sel.order_by@.len(), |i: int| sel.order_by@[i].descending));
        assert forall|i: int| 0 <= i < keys.len() implies (#[trigger] keys[i]).len() == ds.len() by {
            assert(is_key_of_group(a, sel.order_by@, members_of(ms, gs[kept[i]]), keys[i]));
        }
        keys_are_sorted(g, keys, ds, None);
        let whole = if finalize && sel.order_by@.len() > 0 {
            key_order(g, keys, ds, None)
        } else {
            Seq::new(kept.len(), |i: int| i)
        };
        let rows = at_places(rows0, whole);
        if !(finalize && sel.order_by@.len() > 0) {
            assert(rows =~= rows0);
        }
        let left = if sel.distinct {
            dedup_keeps_the_first_of_each(d, rows)
        } else {
            Seq::new(rows.len(), |i: int| i)
        };
        let unique = if sel.distinct {
            deduped(d, rows)
        } else {
            rows
        };
        page_is_a_run(unique, sel.offset, sel.limit);
        assert(unique.len() == left.len());
        assert forall|i: int| 0 <= i < rows.len() implies shows_group(
            a,
            sel.items@,
            members_of(ms, gs[kept[whole[i]]]),
            #[trigger] rows[i],
        ) by {
            assert(rows[i] == rows0[whole[i]]);
        }
        GroupOrder { kept, keys, whole, rows, left }
    }
}

/// The one sort key of `TOP k BY`.
pub open spec fn top_order(top: GroupTop) -> Seq<OrderKey> {
    seq![OrderKey { expr: top.by, descending: !top.ascending }]
}

/// The best rows of a group are its first by the ranking expression, as many as
/// are asked for: they stand in its order, and no row left out stands before
/// one that is kept. A group that `HAVING` is not true of has none.
pub proof fn best_rows_are_the_first_of_their_group<
    F: Fn(&Expr, &Document) -> Result<Value, EngineError>,
    G: Fn(&Value, &Value) -> Rank,
    H: Fn(&Expr, &Vec<&Document>) -> Result<bool, EngineError>,
>(f: F, g: G, h: H, having: Option<Expr>, top: GroupTop, ms: Seq<Fields>) -> (ps: Seq<int>)
    requires
        orders_values(g),
        top.k <= usize::MAX,
    ensures
        best_of_group(f, g, h, having, top, ms) matches Ok(out) ==> if having_holds(h, having, ms) {
            &&& ps.len() == ms.len()
            &&& are_places(ps, ms.len())
            &&& stand_sorted(f, g, top_order(top), ms, ps)
            &&& out.len() == (if top.k < ms.len() {
                top.k as nat
            } else {
                ms.len()
            })
            &&& forall|i: int| 0 <= i < out.len() ==> #[trigger] out[i] == ms[ps[i]]
        } else {
            out.len() == 0
        },
{
    let by = top_order(top);
    assert(order_exprs(by) =~= seq![top.by]);
    assert(order_directions(by) =~= seq![!top.ascending]);
    documents_are_sorted(f, g, by, ms, Some(top.k as usize))
}

/// The best rows of groups are those of each group, one group after the other.
pub proof fn best_rows_come_group_by_group<
    F: Fn(&Expr, &Document) -> Result<Value, EngineError>,
    G: Fn(&Value, &Value) -> Rank,
    H: Fn(&Expr, &Vec<&Document>) -> Result<bool, EngineError>,
>(
    f: F,
    g: G,
    h: H,
    having: Option<Expr>,
    top: GroupTop,
    ms: Seq<Fields>,
    gs: Seq<GroupView>,
) -> (parts: Seq<Seq<Fields>>)
    ensures
        best_of_groups(f, g, h, having, top, ms, gs) matches Ok(out) ==> {
            &&& parts.len() == gs.len()
            &&& forall|i: int|
                0 <= i < gs.len() ==> best_of_group(
                    f,
                    g,
                    h,
                    having,
                    top,
                    members_of(ms, gs[i]),
                ) == Ok::<Seq<Fields>, EngineError>(#[trigger] parts[i])
            &&& out == parts.flatten()
        },
    decreases gs.len(),
{
    if gs.len() == 0 || best_of_groups(f, g, h, having, top, ms, gs) is Err {
        Seq::empty()
    } else {
        let init = gs.drop_last();
        let before = best_rows_come_group_by_group(f, g, h, having, top, ms, init);
        let docs = at_places(ms, gs.last().members);
        assert(docs =~= members_of(ms, gs[gs.len() - 1]));
        let last = best_of_group(f, g, h, having, top, docs)->Ok_0;
        let parts = before.push(last);
        parts.lemma_flatten_and_flatten_alt_are_equivalent();
        before.lemma_flatten_and_flatten_alt_are_equivalent();
        assert(parts.drop_last() =~= before);
        assert forall|i: int| 0 <= i < gs.len() implies best_of_group(
            f,
            g,
            h,
            having,
            top,
            members_of(ms, gs[i]),
        ) == Ok::<Seq<Fields>, EngineError>(#[trigger] parts[i]) by {
            if i < init.len() {
                assert(init[i] == gs[i]);
                assert(parts[i] == before[i]);
            }
        }
        parts
    }
}

} // verus!
