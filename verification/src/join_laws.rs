//! What the rows of a join are: the pairs that the condition is true of, with
//! the rows left over on the outer side, and of those what the filter is true
//! of.

use vstd::prelude::*;

use crate::ast::BinaryOp;
use crate::ast::Expr;
use crate::ast::JoinKind;
use crate::ast::Select;
use crate::error::EngineError;
use crate::execute::decided;
use crate::execute::passes;
use crate::join::buckets_lose_nothing;
use crate::join::equi_key;
use crate::join::equi_of;
use crate::join::first_equi;
use crate::join::hash_join_is_the_nested_loop;
use crate::join::hidden_keys;
use crate::join::is_join_alias;
use crate::join::join_result;
use crate::join::joined;
use crate::join::joined_docs;
use crate::join::left_joined;
use crate::join::matched;
use crate::join::merged;
use crate::join::qualified_sides;
use crate::join::right_joined;
use crate::join::right_matched;
use crate::join::source_alias;
use crate::join::tuple_doc;
use crate::join::with_sides;
use crate::join::Sides;
use crate::join::Tuple;
use crate::model::Fields;
use crate::model::ValueView;
use crate::order::places;
use crate::projection::top_field;
use crate::search::conjuncts;
use crate::value::Document;

verus! {

/// Whether a condition is true of a row; no condition is true of every row.
pub open spec fn is_true_of<F: Fn(&Expr, &Document) -> Result<bool, EngineError>>(
    f: F,
    condition: Option<Expr>,
    m: Fields,
) -> bool {
    condition matches Some(e) ==> decided(f, e, m) == Ok::<bool, EngineError>(true)
}

/// Whether a condition can be decided on a row.
pub open spec fn can_decide<F: Fn(&Expr, &Document) -> Result<bool, EngineError>>(
    f: F,
    condition: Option<Expr>,
    m: Fields,
) -> bool {
    condition matches Some(e) ==> decided(f, e, m) is Ok
}

/// A row passes a filter where the filter is true of it.
pub proof fn passing_is_being_true<F: Fn(&Expr, &Document) -> Result<bool, EngineError>>(
    f: F,
    condition: Option<Expr>,
    m: Fields,
)
    ensures
        passes(f, condition, m) == Ok::<bool, EngineError>(true) <==> is_true_of(f, condition, m),
        passes(f, condition, m) is Ok <==> can_decide(f, condition, m),
{
}

/// `WHERE` keeps of the joined rows those that it is true of, each as the
/// merged document of its tuple, in order, and no others. It fails where it
/// cannot be decided on some row, and only there.
pub proof fn where_keeps_what_it_is_true_of<F: Fn(&Expr, &Document) -> Result<bool, EngineError>>(
    f: F,
    sel: Select,
    ts: Seq<Seq<Fields>>,
    tuples: Seq<Tuple>,
)
    ensures
        joined_docs(f, sel, ts, tuples) is Ok <==> forall|i: int|
            0 <= i < tuples.len() ==> can_decide(
                f,
                sel.filter,
                tuple_doc(sel, ts, #[trigger] tuples[i]),
            ),
        joined_docs(f, sel, ts, tuples) matches Ok(out) ==> out == tuples.filter(
            |t: Tuple| is_true_of(f, sel.filter, tuple_doc(sel, ts, t)),
        ).map_values(|t: Tuple| tuple_doc(sel, ts, t)),
    decreases tuples.len(),
{
    reveal(Seq::filter);
    let p = |t: Tuple| is_true_of(f, sel.filter, tuple_doc(sel, ts, t));
    let d = |t: Tuple| tuple_doc(sel, ts, t);
    if tuples.len() == 0 {
        assert(tuples.filter(p).map_values(d) =~= Seq::<Fields>::empty());
    } else {
        let init = tuples.drop_last();
        let n = tuples.len() - 1;
        let last = tuple_doc(sel, ts, tuples.last());
        where_keeps_what_it_is_true_of(f, sel, ts, init);
        passing_is_being_true(f, sel.filter, last);
        assert(tuples[n] == tuples.last());
        if joined_docs(f, sel, ts, init) is Err {
            let i = choose|i: int|
                0 <= i < n && !can_decide(f, sel.filter, tuple_doc(sel, ts, #[trigger] init[i]));
            assert(!can_decide(f, sel.filter, tuple_doc(sel, ts, tuples[i])));
        } else {
            assert forall|i: int| 0 <= i < n implies can_decide(
                f,
                sel.filter,
                tuple_doc(sel, ts, #[trigger] tuples[i]),
            ) by {
                assert(can_decide(f, sel.filter, tuple_doc(sel, ts, init[i])));
            }
        }
        if joined_docs(f, sel, ts, tuples) is Ok {
            let out = joined_docs(f, sel, ts, tuples)->Ok_0;
            assert(out =~= tuples.filter(p).map_values(d));
        }
    }
}

proof fn lemma_filter_true<T>(s: Seq<T>, p: spec_fn(T) -> bool)
    ensures
        forall|i: int| 0 <= i < s.filter(p).len() ==> p(#[trigger] s.filter(p)[i]),
        forall|i: int|
            0 <= i < s.len() && p(#[trigger] s[i]) ==> s.filter(p).contains(s[i]),
        forall|i: int| 0 <= i < s.filter(p).len() ==> s.contains(#[trigger] s.filter(p)[i]),
    decreases s.len(),
{
    reveal(Seq::filter);
    if s.len() > 0 {
        let init = s.drop_last();
        lemma_filter_true(init, p);
        let r = s.filter(p);
        assert forall|i: int| 0 <= i < r.len() implies s.contains(#[trigger] r[i]) by {
            if i < init.filter(p).len() {
                assert(init.contains(init.filter(p)[i]));
                let q = choose|q: int| 0 <= q < init.len() && init[q] == init.filter(p)[i];
                assert(s[q] == r[i]);
            } else {
                assert(s[s.len() - 1] == r[i]);
            }
        }
        assert forall|i: int| 0 <= i < s.len() && p(#[trigger] s[i]) implies r.contains(s[i]) by {
            if i < init.len() {
                assert(p(init[i]));
                assert(init.filter(p).contains(init[i]));
                let q = choose|q: int|
                    0 <= q < init.filter(p).len() && init.filter(p)[q] == init[i];
                assert(r[q] == s[i]);
            } else {
                assert(r[r.len() - 1] == s[i]);
            }
        }
    }
}

/// The filter of a joined query is true of every row of its result; and the
/// result holds the merged row of every joined tuple that it is true of.
pub proof fn joined_rows_pass_the_filter<
    F: Fn(&Expr, &Document) -> Result<bool, EngineError>,
    H: Fn(&Document, &String) -> Option<Vec<u8>>,
>(f: F, h: H, sel: Select, ts: Seq<Seq<Fields>>)
    ensures
        join_result(f, h, sel, ts) matches Ok(out) ==> {
            let tuples = joined(f, h, sel, ts, sel.joins@.len())->Ok_0;
            &&& forall|i: int|
                0 <= i < out.len() ==> (sel.filter matches Some(e) ==> decided(
                    f,
                    e,
                    #[trigger] out[i],
                ) == Ok::<bool, EngineError>(true))
            &&& forall|i: int|
                #![trigger tuples[i]]
                0 <= i < tuples.len() && (sel.filter matches Some(e) ==> decided(
                    f,
                    e,
                    tuple_doc(sel, ts, tuples[i]),
                ) == Ok::<bool, EngineError>(true)) ==> out.contains(tuple_doc(sel, ts, tuples[i]))
            &&& forall|i: int|
                0 <= i < out.len() ==> exists|k: int|
                    0 <= k < tuples.len() && tuple_doc(sel, ts, #[trigger] tuples[k]) == #[trigger] out[i]
        },
{
    if let Ok(out) = join_result(f, h, sel, ts) {
        let tuples = joined(f, h, sel, ts, sel.joins@.len())->Ok_0;
        let p = |t: Tuple| is_true_of(f, sel.filter, tuple_doc(sel, ts, t));
        let d = |t: Tuple| tuple_doc(sel, ts, t);
        let kept = tuples.filter(p);
        where_keeps_what_it_is_true_of(f, sel, ts, tuples);
        lemma_filter_true(tuples, p);
        assert(out == kept.map_values(d));
        assert forall|i: int| 0 <= i < out.len() implies (sel.filter matches Some(e) ==> decided(
            f,
            e,
            #[trigger] out[i],
        ) == Ok::<bool, EngineError>(true)) by {
            assert(p(kept[i]));
        }
        assert forall|i: int|
            #![trigger tuples[i]]
            0 <= i < tuples.len() && (sel.filter matches Some(e) ==> decided(
                f,
                e,
                tuple_doc(sel, ts, tuples[i]),
            ) == Ok::<bool, EngineError>(true)) implies out.contains(
            tuple_doc(sel, ts, tuples[i]),
        ) by {
            assert(p(tuples[i]));
            let q = choose|q: int| 0 <= q < kept.len() && kept[q] == tuples[i];
            assert(out[q] == tuple_doc(sel, ts, tuples[i]));
        }
        assert forall|i: int| 0 <= i < out.len() implies exists|k: int|
            0 <= k < tuples.len() && tuple_doc(sel, ts, #[trigger] tuples[k]) == #[trigger] out[i] by {
            assert(tuples.contains(kept[i]));
            let k = choose|k: int| 0 <= k < tuples.len() && tuples[k] == kept[i];
            assert(tuple_doc(sel, ts, tuples[k]) == out[i]);
        }
    }
}

/// A tuple with the row at `p` on the right.
pub open spec fn paired(t: Tuple, p: int) -> Tuple {
    t.push(Some(p))
}

/// The pairs of a tuple with the rows on the right that the condition is true
/// of.
pub open spec fn pairs_of<F: Fn(&Expr, &Document) -> Result<bool, EngineError>>(
    f: F,
    sel: Select,
    ts: Seq<Seq<Fields>>,
    on: Option<Expr>,
    t: Tuple,
    n: nat,
) -> Seq<Tuple> {
    Seq::new(n, |p: int| t.push(Some(p))).filter(
        |u: Tuple| is_true_of(f, on, tuple_doc(sel, ts, u)),
    )
}

proof fn lemma_matched<F: Fn(&Expr, &Document) -> Result<bool, EngineError>>(
    f: F,
    sel: Select,
    ts: Seq<Seq<Fields>>,
    on: Option<Expr>,
    t: Tuple,
    n: nat,
)
    ensures
        matched(f, sel, ts, on, t, places(n)) matches Ok(out) ==> out == pairs_of(
            f,
            sel,
            ts,
            on,
            t,
            n,
        ),
        (forall|p: int|
            0 <= p < n ==> can_decide(f, on, tuple_doc(sel, ts, #[trigger] paired(t, p))))
            ==> matched(f, sel, ts, on, t, places(n)) is Ok,
    decreases n,
{
    reveal(Seq::filter);
    let q = |u: Tuple| is_true_of(f, on, tuple_doc(sel, ts, u));
    let all = Seq::new(n, |p: int| t.push(Some(p)));
    if n == 0 {
        assert(places(0) =~= Seq::<int>::empty());
        assert(all =~= Seq::<Tuple>::empty());
    } else {
        let m = (n - 1) as nat;
        assert(places(n).drop_last() =~= places(m));
        assert(places(n).last() == n - 1);
        lemma_matched(f, sel, ts, on, t, m);
        let cand = t.push(Some(n - 1));
        passing_is_being_true(f, on, tuple_doc(sel, ts, cand));
        assert(all.drop_last() =~= Seq::new(m, |p: int| t.push(Some(p))));
        assert(all.last() == cand);
        if forall|p: int|
            0 <= p < n ==> can_decide(f, on, tuple_doc(sel, ts, #[trigger] paired(t, p))) {
            assert(can_decide(f, on, tuple_doc(sel, ts, paired(t, n - 1))));
        }
    }
}

/// What a tuple becomes in an inner, cross or left join: its pairs with the
/// rows that the condition is true of, and in a left join without any the tuple
/// alone.
pub open spec fn becomes_left<F: Fn(&Expr, &Document) -> Result<bool, EngineError>>(
    f: F,
    sel: Select,
    ts: Seq<Seq<Fields>>,
    j: int,
    t: Tuple,
) -> Seq<Tuple> {
    let pairs = pairs_of(f, sel, ts, sel.joins@[j].on, t, ts[j + 1].len());
    if sel.joins@[j].kind == JoinKind::Left && pairs.len() == 0 {
        seq![t.push(None)]
    } else {
        pairs
    }
}

/// A join other than a right one puts in place of every tuple on the left, in
/// order, its pairs with the rows on the right that the condition is true of. A
/// left join keeps a tuple that has none, with nothing on the right.
pub proof fn left_tuples_become_their_pairs<
    F: Fn(&Expr, &Document) -> Result<bool, EngineError>,
    H: Fn(&Document, &String) -> Option<Vec<u8>>,
>(f: F, h: H, sel: Select, ts: Seq<Seq<Fields>>, j: int, tuples: Seq<Tuple>)
    requires
        forall|i: int|
            0 <= i < tuples.len() ==> buckets_lose_nothing(f, h, sel, ts, j, #[trigger] tuples[i]),
    ensures
        left_joined(f, h, sel, ts, j, tuples) matches Ok(out) ==> out == tuples.map_values(
            |t: Tuple| becomes_left(f, sel, ts, j, t),
        ).flatten(),
        (forall|i: int, p: int|
            0 <= i < tuples.len() && 0 <= p < ts[j + 1].len() ==> can_decide(
                f,
                sel.joins@[j].on,
                tuple_doc(sel, ts, #[trigger] paired(tuples[i], p)),
            )) ==> left_joined(f, h, sel, ts, j, tuples) is Ok,
    decreases tuples.len(),
{
    let b = |t: Tuple| becomes_left(f, sel, ts, j, t);
    let parts = tuples.map_values(b);
    parts.lemma_flatten_and_flatten_alt_are_equivalent();
    if tuples.len() > 0 {
        let init = tuples.drop_last();
        let n = tuples.len() - 1;
        let t = tuples.last();
        assert(tuples[n] == t);
        let join = sel.joins@[j];
        let width = ts[j + 1].len();
        assert forall|i: int| 0 <= i < init.len() implies buckets_lose_nothing(
            f,
            h,
            sel,
            ts,
            j,
            #[trigger] init[i],
        ) by {
            assert(buckets_lose_nothing(f, h, sel, ts, j, tuples[i]));
        }
        left_tuples_become_their_pairs(f, h, sel, ts, j, init);
        assert(buckets_lose_nothing(f, h, sel, ts, j, tuples[n]));
        hash_join_is_the_nested_loop(f, h, sel, ts, j, t);
        lemma_matched(f, sel, ts, join.on, t, width);
        init.map_values(b).lemma_flatten_and_flatten_alt_are_equivalent();
        assert(parts.drop_last() =~= init.map_values(b));
        assert(parts.last() == becomes_left(f, sel, ts, j, t));
        if left_joined(f, h, sel, ts, j, tuples) is Ok {
            let before = left_joined(f, h, sel, ts, j, init)->Ok_0;
            let out = left_joined(f, h, sel, ts, j, tuples)->Ok_0;
            assert(out =~= before + becomes_left(f, sel, ts, j, t));
        }
        if forall|i: int, p: int|
            0 <= i < tuples.len() && 0 <= p < width ==> can_decide(
                f,
                join.on,
                tuple_doc(sel, ts, #[trigger] paired(tuples[i], p)),
            ) {
            assert forall|i: int, p: int| 0 <= i < init.len() && 0 <= p < width implies can_decide(
                f,
                join.on,
                tuple_doc(sel, ts, #[trigger] paired(init[i], p)),
            ) by {
                assert(paired(tuples[i], p) == paired(init[i], p));
            }
            assert forall|p: int| 0 <= p < width implies can_decide(
                f,
                join.on,
                tuple_doc(sel, ts, #[trigger] paired(t, p)),
            ) by {
                assert(paired(tuples[n], p) == paired(t, p));
            }
        }
    } else {
        assert(parts =~= Seq::<Seq<Tuple>>::empty());
    }
}

/// The pairs of a row on the right with the tuples that the condition is true
/// of.
pub open spec fn pairs_with<F: Fn(&Expr, &Document) -> Result<bool, EngineError>>(
    f: F,
    sel: Select,
    ts: Seq<Seq<Fields>>,
    on: Option<Expr>,
    tuples: Seq<Tuple>,
    p: int,
) -> Seq<Tuple> {
    tuples.map_values(|t: Tuple| t.push(Some(p))).filter(
        |u: Tuple| is_true_of(f, on, tuple_doc(sel, ts, u)),
    )
}

proof fn lemma_right_matched<F: Fn(&Expr, &Document) -> Result<bool, EngineError>>(
    f: F,
    sel: Select,
    ts: Seq<Seq<Fields>>,
    on: Option<Expr>,
    tuples: Seq<Tuple>,
    p: int,
)
    ensures
        right_matched(f, sel, ts, on, tuples, p) matches Ok(out) ==> out == pairs_with(
            f,
            sel,
            ts,
            on,
            tuples,
            p,
        ),
        (forall|i: int|
            0 <= i < tuples.len() ==> can_decide(
                f,
                on,
                tuple_doc(sel, ts, (#[trigger] tuples[i]).push(Some(p))),
            )) ==> right_matched(f, sel, ts, on, tuples, p) is Ok,
    decreases tuples.len(),
{
    reveal(Seq::filter);
    let all = tuples.map_values(|t: Tuple| t.push(Some(p)));
    if tuples.len() == 0 {
        assert(all =~= Seq::<Tuple>::empty());
    } else {
        let init = tuples.drop_last();
        let n = tuples.len() - 1;
        lemma_right_matched(f, sel, ts, on, init, p);
        let cand = tuples.last().push(Some(p));
        passing_is_being_true(f, on, tuple_doc(sel, ts, cand));
        assert(all.drop_last() =~= init.map_values(|t: Tuple| t.push(Some(p))));
        assert(all.last() == cand);
        if forall|i: int|
            0 <= i < tuples.len() ==> can_decide(
                f,
                on,
                tuple_doc(sel, ts, (#[trigger] tuples[i]).push(Some(p))),
            ) {
            assert(can_decide(f, on, tuple_doc(sel, ts, tuples[n].push(Some(p)))));
            assert forall|i: int| 0 <= i < init.len() implies can_decide(
                f,
                on,
                tuple_doc(sel, ts, (#[trigger] init[i]).push(Some(p))),
            ) by {
                assert(can_decide(f, on, tuple_doc(sel, ts, tuples[i].push(Some(p)))));
            }
        }
    }
}

/// A tuple that holds a row on the right and nothing before it.
pub open spec fn is_right_alone(u: Tuple, width: int, p: int) -> bool {
    &&& u.len() == width + 1
    &&& u[width] == Some(p)
    &&& forall|s: int| 0 <= s < width ==> (#[trigger] u[s]) is None
}

/// Whether tuples are what a row on the right becomes in a right join: its
/// pairs with the tuples that the condition is true of, and without any the row
/// alone.
pub open spec fn becomes_right<F: Fn(&Expr, &Document) -> Result<bool, EngineError>>(
    f: F,
    sel: Select,
    ts: Seq<Seq<Fields>>,
    j: int,
    tuples: Seq<Tuple>,
    p: int,
    out: Seq<Tuple>,
) -> bool {
    let pairs = pairs_with(f, sel, ts, sel.joins@[j].on, tuples, p);
    if pairs.len() == 0 {
        out.len() == 1 && is_right_alone(out[0], j + 1, p)
    } else {
        out == pairs
    }
}

/// A right join puts in place of every row on the right, in order, its pairs
/// with the tuples on the left that the condition is true of, and keeps a row
/// that has none with nothing on the left.
pub proof fn right_rows_become_their_pairs<F: Fn(&Expr, &Document) -> Result<bool, EngineError>>(
    f: F,
    sel: Select,
    ts: Seq<Seq<Fields>>,
    j: int,
    tuples: Seq<Tuple>,
    n: nat,
) -> (parts: Seq<Seq<Tuple>>)
    requires
        j >= 0,
    ensures
        right_joined(f, sel, ts, j, tuples, n) matches Ok(out) ==> {
            &&& parts.len() == n
            &&& forall|p: int|
                0 <= p < n ==> becomes_right(f, sel, ts, j, tuples, p, #[trigger] parts[p])
            &&& out == parts.flatten()
        },
        (forall|i: int, p: int|
            0 <= i < tuples.len() && 0 <= p < n ==> can_decide(
                f,
                sel.joins@[j].on,
                tuple_doc(sel, ts, #[trigger] paired(tuples[i], p)),
            )) ==> right_joined(f, sel, ts, j, tuples, n) is Ok,
    decreases n,
{
    if n == 0 {
        Seq::empty()
    } else {
        let m = (n - 1) as nat;
        let on = sel.joins@[j].on;
        let before = right_rows_become_their_pairs(f, sel, ts, j, tuples, m);
        lemma_right_matched(f, sel, ts, on, tuples, n - 1);
        if forall|i: int, p: int|
            0 <= i < tuples.len() && 0 <= p < n ==> can_decide(
                f,
                on,
                tuple_doc(sel, ts, #[trigger] paired(tuples[i], p)),
            ) {
            assert forall|i: int| 0 <= i < tuples.len() implies can_decide(
                f,
                on,
                tuple_doc(sel, ts, (#[trigger] tuples[i]).push(Some(n - 1))),
            ) by {
                assert(can_decide(f, on, tuple_doc(sel, ts, paired(tuples[i], n - 1))));
            }
        }
        if right_joined(f, sel, ts, j, tuples, n) is Ok {
            let found = right_matched(f, sel, ts, on, tuples, n - 1)->Ok_0;
            let last = if found.len() == 0 {
                seq![crate::join::right_only((j + 1) as nat, n - 1)]
            } else {
                found
            };
            let parts = before.push(last);
            parts.lemma_flatten_and_flatten_alt_are_equivalent();
            before.lemma_flatten_and_flatten_alt_are_equivalent();
            assert(parts.drop_last() =~= before);
            let earlier = right_joined(f, sel, ts, j, tuples, m)->Ok_0;
            let out = right_joined(f, sel, ts, j, tuples, n)->Ok_0;
            assert(out =~= earlier + last);
            parts
        } else {
            before
        }
    }
}

/// A joined query begins with the rows of its first table, and takes in one
/// source after the other, each by its own kind of join.
pub proof fn sources_are_joined_in_turn<
    F: Fn(&Expr, &Document) -> Result<bool, EngineError>,
    H: Fn(&Document, &String) -> Option<Vec<u8>>,
>(f: F, h: H, sel: Select, ts: Seq<Seq<Fields>>, n: nat) -> (parts: Seq<Seq<Tuple>>)
    requires
        n > 0 && sel.joins@[n - 1].kind != JoinKind::Right && joined(f, h, sel, ts, (n - 1) as nat) is Ok
            ==> forall|i: int|
            0 <= i < joined(f, h, sel, ts, (n - 1) as nat)->Ok_0.len() ==> buckets_lose_nothing(
                f,
                h,
                sel,
                ts,
                n - 1,
                #[trigger] joined(f, h, sel, ts, (n - 1) as nat)->Ok_0[i],
            ),
    ensures
        n == 0 ==> joined(f, h, sel, ts, n) is Ok && joined(f, h, sel, ts, n)->Ok_0.len()
            == ts[0].len() && forall|i: int|
            0 <= i < ts[0].len() ==> #[trigger] joined(f, h, sel, ts, n)->Ok_0[i] == seq![Some(i)],
        n > 0 ==> (joined(f, h, sel, ts, n) matches Ok(out) ==> {
            let before = joined(f, h, sel, ts, (n - 1) as nat);
            &&& before is Ok
            &&& out == parts.flatten()
            &&& if sel.joins@[n - 1].kind == JoinKind::Right {
                &&& parts.len() == ts[n as int].len()
                &&& forall|p: int|
                    0 <= p < parts.len() ==> becomes_right(
                        f,
                        sel,
                        ts,
                        n - 1,
                        before->Ok_0,
                        p,
                        #[trigger] parts[p],
                    )
            } else {
                &&& parts.len() == before->Ok_0.len()
                &&& forall|i: int|
                    0 <= i < parts.len() ==> #[trigger] parts[i] == becomes_left(
                        f,
                        sel,
                        ts,
                        n - 1,
                        before->Ok_0[i],
                    )
            }
        }),
{
    if n > 0 && joined(f, h, sel, ts, (n - 1) as nat) is Ok {
        let tuples = joined(f, h, sel, ts, (n - 1) as nat)->Ok_0;
        if sel.joins@[n - 1].kind == JoinKind::Right {
            right_rows_become_their_pairs(f, sel, ts, n - 1, tuples, ts[n as int].len())
        } else {
            left_tuples_become_their_pairs(f, h, sel, ts, n - 1, tuples);
            tuples.map_values(|t: Tuple| becomes_left(f, sel, ts, n - 1, t))
        }
    } else {
        Seq::empty()
    }
}

/// Whether the side at `s` is there under an alias, and no later one is.
pub open spec fn is_side(parts: Sides, s: int, n: Seq<char>) -> bool {
    &&& 0 <= s < parts.len()
    &&& parts[s].0 == n
    &&& parts[s].1 is Some
    &&& forall|later: int|
        s < later < parts.len() && (#[trigger] parts[later]).0 == n ==> parts[later].1 is None
}

/// Whether the side at `s` is the first that has a field.
pub open spec fn is_first_with(parts: Sides, s: int, n: Seq<char>) -> bool {
    &&& 0 <= s < parts.len()
    &&& parts[s].1 is Some
    &&& (parts[s].1->0).dom().contains(n)
    &&& forall|earlier: int|
        0 <= earlier < s && (#[trigger] parts[earlier]).1 is Some ==> !(
        parts[earlier].1->0).dom().contains(n)
}

proof fn lemma_qualified(parts: Sides)
    ensures
        forall|n: Seq<char>, s: int|
            #![trigger is_side(parts, s, n)]
            is_side(parts, s, n) ==> qualified_sides(parts).dom().contains(n) && qualified_sides(
                parts,
            )[n] == ValueView::Document(parts[s].1->0),
        forall|n: Seq<char>| #[trigger]
            qualified_sides(parts).dom().contains(n) ==> exists|s: int| is_side(parts, s, n),
    decreases parts.len(),
{
    if parts.len() > 0 {
        let init = parts.drop_last();
        let k = parts.len() - 1;
        lemma_qualified(init);
        let m = qualified_sides(parts);
        assert forall|n: Seq<char>, s: int|
            #![trigger is_side(parts, s, n)]
            is_side(parts, s, n) implies m.dom().contains(n) && m[n] == ValueView::Document(
            parts[s].1->0,
        ) by {
            if s < k {
                assert forall|later: int|
                    s < later < init.len() && (#[trigger] init[later]).0
                        == n implies init[later].1 is None by {
                    assert(parts[later] == init[later]);
                }
                assert(is_side(init, s, n));
                if parts[k].1 is Some {
                    assert(parts[k].0 != n);
                }
            }
        }
        assert forall|n: Seq<char>| #[trigger] m.dom().contains(n) implies exists|s: int|
            is_side(parts, s, n) by {
            if parts[k].1 is Some && parts[k].0 == n {
                assert(is_side(parts, k, n));
            } else {
                assert(qualified_sides(init).dom().contains(n));
                let s = choose|s: int| is_side(init, s, n);
                assert(is_side(init, s, n));
                assert forall|later: int|
                    s < later < parts.len() && (#[trigger] parts[later]).0
                        == n implies parts[later].1 is None by {
                    if later < k {
                        assert(init[later] == parts[later]);
                    }
                }
                assert(is_side(parts, s, n));
            }
        }
    }
}

proof fn lemma_with_sides(m: Fields, parts: Sides, n: Seq<char>)
    ensures
        m.dom().contains(n) ==> with_sides(m, parts).dom().contains(n) && with_sides(m, parts)[n]
            == m[n],
        !m.dom().contains(n) ==> forall|s: int| #[trigger]
            is_first_with(parts, s, n) ==> with_sides(m, parts).dom().contains(n) && with_sides(
                m,
                parts,
            )[n] == (parts[s].1->0)[n],
        !m.dom().contains(n) && with_sides(m, parts).dom().contains(n) ==> exists|s: int|
            is_first_with(parts, s, n),
    decreases parts.len(),
{
    if parts.len() > 0 {
        let init = parts.drop_last();
        let k = parts.len() - 1;
        lemma_with_sides(m, init, n);
        let before = with_sides(m, init);
        let r = with_sides(m, parts);
        if !m.dom().contains(n) {
            assert forall|s: int| #[trigger] is_first_with(parts, s, n) implies r.dom().contains(n)
                && r[n] == (parts[s].1->0)[n] by {
                if s < k {
                    assert forall|earlier: int|
                        0 <= earlier < s && (#[trigger] init[earlier]).1 is Some implies !(
                    init[earlier].1->0).dom().contains(n) by {
                        assert(parts[earlier] == init[earlier]);
                    }
                    assert(is_first_with(init, s, n));
                } else {
                    assert(!before.dom().contains(n)) by {
                        if before.dom().contains(n) {
                            let q = choose|q: int| is_first_with(init, q, n);
                            assert(is_first_with(init, q, n));
                            assert(parts[q] == init[q]);
                        }
                    }
                }
            }
            if r.dom().contains(n) {
                if before.dom().contains(n) {
                    let q = choose|q: int| is_first_with(init, q, n);
                    assert(is_first_with(init, q, n));
                    assert forall|earlier: int|
                        0 <= earlier < q && (#[trigger] parts[earlier]).1 is Some implies !(
                    parts[earlier].1->0).dom().contains(n) by {
                        assert(parts[earlier] == init[earlier]);
                    }
                    assert(is_first_with(parts, q, n));
                } else {
                    assert forall|earlier: int|
                        0 <= earlier < k && (#[trigger] parts[earlier]).1 is Some implies !(
                    parts[earlier].1->0).dom().contains(n) by {
                        assert(parts[earlier] == init[earlier]);
                        if (init[earlier].1->0).dom().contains(n) {
                            let first = lemma_first_with(init, earlier, n);
                            assert(is_first_with(init, first, n));
                        }
                    }
                    assert(is_first_with(parts, k, n));
                }
            }
        }
    }
}

proof fn lemma_first_with(parts: Sides, s: int, n: Seq<char>) -> (first: int)
    requires
        0 <= s < parts.len(),
        parts[s].1 is Some,
        (parts[s].1->0).dom().contains(n),
    ensures
        is_first_with(parts, first, n),
    decreases s,
{
    if is_first_with(parts, s, n) {
        s
    } else {
        let e = choose|e: int|
            0 <= e < s && (#[trigger] parts[e]).1 is Some && (parts[e].1->0).dom().contains(n);
        lemma_first_with(parts, e, n)
    }
}

/// A joined row holds each of its sides as a document under the side's alias,
/// and beside them the sides' own fields, of a name that several have the
/// first's; nothing else. An alias goes before a field of that name.
pub proof fn a_joined_row_holds_its_sides(parts: Sides, n: Seq<char>, s: int)
    ensures
        is_side(parts, s, n) ==> merged(parts).dom().contains(n) && merged(parts)[n]
            == ValueView::Document(parts[s].1->0),
        is_first_with(parts, s, n) && (forall|a: int| !is_side(parts, a, n)) ==> merged(
            parts,
        ).dom().contains(n) && merged(parts)[n] == (parts[s].1->0)[n],
        merged(parts).dom().contains(n) ==> (exists|a: int| is_side(parts, a, n)) || (exists|a: int|
            is_first_with(parts, a, n)),
{
    lemma_qualified(parts);
    let m = qualified_sides(parts);
    lemma_with_sides(m, parts, n);
    if is_first_with(parts, s, n) && (forall|a: int| !is_side(parts, a, n)) {
        assert(!m.dom().contains(n));
    }
    if merged(parts).dom().contains(n) {
        if m.dom().contains(n) {
            assert(exists|a: int| is_side(parts, a, n));
        }
    }
}

/// The key that a join looks up by comes from an equality between a column of
/// the joined table and one of another, that the whole condition asks for.
pub proof fn lookup_keys_come_from_an_equality(on: Option<Expr>, alias: Seq<char>) -> (e: Expr)
    ensures
        equi_key(on, alias) matches Some((l, r)) ==> {
            &&& on is Some
            &&& conjuncts(on->0).contains(e)
            &&& top_field(l) != alias
            &&& e matches Expr::Binary { op, left, right } && op == BinaryOp::Eq && (*left matches Expr::Column(
                a,
            ) && (*right matches Expr::Column(b) && ((a@ == l && b@ == alias + "."@ + r) || (b@ == l
                && a@ == alias + "."@ + r))))
        },
{
    match on {
        None => arbitrary(),
        Some(c) => lemma_first_equi(conjuncts(c), alias),
    }
}

proof fn lemma_first_equi(es: Seq<Expr>, alias: Seq<char>) -> (e: Expr)
    ensures
        first_equi(es, alias) matches Some((l, r)) ==> {
            &&& es.contains(e)
            &&& top_field(l) != alias
            &&& e matches Expr::Binary { op, left, right } && op == BinaryOp::Eq && (*left matches Expr::Column(
                a,
            ) && (*right matches Expr::Column(b) && ((a@ == l && b@ == alias + "."@ + r) || (b@ == l
                && a@ == alias + "."@ + r))))
        },
    decreases es.len(),
{
    if es.len() == 0 {
        arbitrary()
    } else {
        let pre = alias + "."@;
        match equi_of(es[0], alias) {
            Some((l, r)) => {
                let e = es[0];
                assert(es.contains(e));
                if let Expr::Binary { op, left, right } = e {
                    if let (Expr::Column(a), Expr::Column(b)) = (*left, *right) {
                        if crate::text::has_prefix(b@, pre) {
                            assert(b@ =~= pre + b@.skip(pre.len() as int));
                        }
                        if crate::text::has_prefix(a@, pre) {
                            assert(a@ =~= pre + a@.skip(pre.len() as int));
                        }
                    }
                }
                e
            },
            None => {
                let e = lemma_first_equi(es.skip(1), alias);
                if first_equi(es, alias) is Some {
                    let i = choose|i: int| 0 <= i < es.skip(1).len() && es.skip(1)[i] == e;
                    assert(es[i + 1] == e);
                }
                e
            },
        }
    }
}

/// What a joined query hides from `*` are the documents that stand under its
/// aliases; a query over one table hides nothing.
pub proof fn only_aliases_are_hidden(sel: Select, n: Seq<char>)
    ensures
        hidden_keys(sel).contains(n) <==> sel.joins@.len() > 0 && exists|s: int|
            0 <= s <= sel.joins@.len() && #[trigger] source_alias(sel, s) == n,
{
    if sel.joins@.len() > 0 {
        if hidden_keys(sel).contains(n) {
            if n == sel.from_alias@ {
                assert(source_alias(sel, 0) == n);
            } else {
                assert(is_join_alias(sel.joins@, n));
                let i = choose|i: int| 0 <= i < sel.joins@.len() && (#[trigger] sel.joins@[i]).alias@ == n;
                assert(source_alias(sel, i + 1) == n);
            }
        }
        if exists|s: int| 0 <= s <= sel.joins@.len() && #[trigger] source_alias(sel, s) == n {
            let s = choose|s: int|
                0 <= s <= sel.joins@.len() && #[trigger] source_alias(sel, s) == n;
            if s > 0 {
                assert(sel.joins@[s - 1].alias@ == n);
            }
        }
    }
}

} // verus!
