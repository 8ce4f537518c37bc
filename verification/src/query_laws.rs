//! What a search query means: it is true of the rows that the filter it was
//! made from is true of.

use vstd::prelude::*;

use crate::ast::BinaryOp;
use crate::ast::Expr;
use crate::ast::UnaryOp;
use crate::error::ErrorView;
use crate::search::all_fields_into;
use crate::search::all_texts_into;
use crate::search::column_args;
use crate::search::combined;
use crate::search::conjuncts;
use crate::search::expr_query;
use crate::search::fields_into;
use crate::search::func_query;
use crate::search::pure_search;
use crate::search::split_conjuncts;
use crate::search::split_filter;
use crate::search::texts_into;
use crate::search::with_name;
use crate::search::with_names;
use crate::search::QueryView;
use crate::value::Value;

verus! {

/// Whether a query is true of a row, given its single predicates that are: all
/// parts, some part, not the part; of a boosted query what it requires.
pub open spec fn query_true(q: QueryView, leaf: Set<QueryView>) -> bool
    decreases q,
{
    match q {
        QueryView::All(subs) => forall|i: int|
            0 <= i < subs.len() ==> query_true(#[trigger] subs[i], leaf),
        QueryView::Any(subs) => exists|i: int|
            0 <= i < subs.len() && query_true(#[trigger] subs[i], leaf),
        QueryView::Not(sub) => !query_true(*sub, leaf),
        QueryView::Boosted { required, .. } => query_true(*required, leaf),
        _ => leaf.contains(q),
    }
}

/// Whether a condition is true of a row, given its single conditions that are:
/// `AND`, `OR` and `NOT` as in logic, and of `BOOSTED` its first argument.
pub open spec fn search_true(e: Expr, leaf: Set<Expr>) -> bool
    decreases e,
{
    match e {
        Expr::Binary { op, left, right } => if op == BinaryOp::And {
            search_true(*left, leaf) && search_true(*right, leaf)
        } else if op == BinaryOp::Or {
            search_true(*left, leaf) || search_true(*right, leaf)
        } else {
            leaf.contains(e)
        },
        Expr::Unary { op, expr } => if op == UnaryOp::Not {
            !search_true(*expr, leaf)
        } else {
            leaf.contains(e)
        },
        Expr::Func { name, args } => if name@ == "boosted"@ && args@.len() > 0 {
            search_true(args@[0], leaf)
        } else {
            leaf.contains(e)
        },
        _ => leaf.contains(e),
    }
}

/// Whether an argument names a column.
pub open spec fn is_column(e: Expr, column: Seq<char>) -> bool {
    e matches Expr::Column(c) && c@ == column
}

/// Whether an argument is a text.
pub open spec fn is_text(e: Expr, text: Seq<char>) -> bool {
    e matches Expr::Literal(Value::String(s)) && s@ == text
}

/// Whether an argument is a number.
pub open spec fn is_count(e: Expr, n: int) -> bool {
    n >= 0 && (e matches Expr::Literal(Value::Int(i)) && i == n)
}

/// Whether two arguments are a column and a text.
pub open spec fn on_column(args: Seq<Expr>, field: Option<Seq<char>>, text: Seq<char>) -> bool {
    field is Some && is_column(args[0], field->0) && is_text(args[1], text)
}

/// Whether a query without parts asks what the call `name(args)` asks.
pub open spec fn asks(name: Seq<char>, args: Seq<Expr>, q: QueryView) -> bool {
    match q {
        QueryView::Match { field, text } => name == "match"@ && args.len() == 2 && on_column(
            args,
            field,
            text,
        ),
        QueryView::Phrase { field, text, slop } => name == "match_phrase"@ && on_column(
            args,
            field,
            text,
        ) && (if args.len() == 2 {
            slop == 0
        } else {
            args.len() == 3 && is_count(args[2], slop as int)
        }),
        QueryView::Fuzzy { field, text, distance } => name == "fuzzy"@ && on_column(
            args,
            field,
            text,
        ) && (if args.len() == 2 {
            distance == 1
        } else {
            args.len() == 3 && is_count(args[2], distance as int)
        }),
        QueryView::Prefix { field, text } => name == "match_prefix"@ && args.len() == 2
            && on_column(args, field, text),
        QueryView::Wildcard { field, pattern } => name == "wildcard"@ && args.len() == 2
            && on_column(args, field, pattern),
        QueryView::Regexp { field, pattern } => name == "regexp"@ && args.len() == 2 && on_column(
            args,
            field,
            pattern,
        ),
        QueryView::MoreLikeThis { field, text } => name == "more_like_this"@ && args.len() == 2
            && on_column(args, field, text),
        QueryView::QueryString(text) => name == "search"@ && args.len() == 1 && is_text(
            args[0],
            text,
        ),
        QueryView::MultiMatch { fields, text, term_centric } => {
            &&& name == (if term_centric {
                "match_cross"@
            } else {
                "match_best"@
            })
            &&& args.len() >= 3
            &&& fields.len() == args.len() - 1
            &&& forall|i: int| 0 <= i < fields.len() ==> is_column(args[i], #[trigger] fields[i])
            &&& is_text(args[args.len() - 1], text)
        },
        _ => false,
    }
}

proof fn lemma_names_differ()
    ensures
        "match"@ != "match_phrase"@,
        "match"@ != "match_prefix"@,
        "match"@ != "fuzzy"@,
        "match"@ != "wildcard"@,
        "match"@ != "regexp"@,
        "match"@ != "more_like_this"@,
        "match"@ != "search"@,
        "match"@ != "boosted"@,
        "match"@ != "match_cross"@,
        "match"@ != "match_best"@,
        "match_phrase"@ != "match_prefix"@,
        "match_phrase"@ != "fuzzy"@,
        "match_phrase"@ != "wildcard"@,
        "match_phrase"@ != "regexp"@,
        "match_phrase"@ != "more_like_this"@,
        "match_phrase"@ != "search"@,
        "match_phrase"@ != "boosted"@,
        "match_phrase"@ != "match_cross"@,
        "match_phrase"@ != "match_best"@,
        "match_prefix"@ != "fuzzy"@,
        "match_prefix"@ != "wildcard"@,
        "match_prefix"@ != "regexp"@,
        "match_prefix"@ != "more_like_this"@,
        "match_prefix"@ != "search"@,
        "match_prefix"@ != "boosted"@,
        "match_prefix"@ != "match_cross"@,
        "match_prefix"@ != "match_best"@,
        "fuzzy"@ != "wildcard"@,
        "fuzzy"@ != "regexp"@,
        "fuzzy"@ != "more_like_this"@,
        "fuzzy"@ != "search"@,
        "fuzzy"@ != "boosted"@,
        "fuzzy"@ != "match_cross"@,
        "fuzzy"@ != "match_best"@,
        "wildcard"@ != "regexp"@,
        "wildcard"@ != "more_like_this"@,
        "wildcard"@ != "search"@,
        "wildcard"@ != "boosted"@,
        "wildcard"@ != "match_cross"@,
        "wildcard"@ != "match_best"@,
        "regexp"@ != "more_like_this"@,
        "regexp"@ != "search"@,
        "regexp"@ != "boosted"@,
        "regexp"@ != "match_cross"@,
        "regexp"@ != "match_best"@,
        "more_like_this"@ != "search"@,
        "more_like_this"@ != "boosted"@,
        "more_like_this"@ != "match_cross"@,
        "more_like_this"@ != "match_best"@,
        "search"@ != "boosted"@,
        "search"@ != "match_cross"@,
        "search"@ != "match_best"@,
        "boosted"@ != "match_cross"@,
        "boosted"@ != "match_best"@,
        "match_cross"@ != "match_best"@,
{
    reveal_strlit("match");
    reveal_strlit("match_phrase");
    reveal_strlit("match_prefix");
    reveal_strlit("fuzzy");
    reveal_strlit("wildcard");
    reveal_strlit("regexp");
    reveal_strlit("more_like_this");
    reveal_strlit("search");
    reveal_strlit("boosted");
    reveal_strlit("match_cross");
    reveal_strlit("match_best");
    assert("match"@.len() == 5 && "fuzzy"@.len() == 5);
    assert("regexp"@.len() == 6 && "search"@.len() == 6);
    assert("boosted"@.len() == 7);
    assert("wildcard"@.len() == 8);
    assert("match_best"@.len() == 10);
    assert("match_cross"@.len() == 11);
    assert("match_phrase"@.len() == 12 && "match_prefix"@.len() == 12);
    assert("more_like_this"@.len() == 14);
    assert("match"@[0] == 'm' && "fuzzy"@[0] == 'f');
    assert("match_phrase"@[7] == 'h' && "match_prefix"@[7] == 'r');
    assert("regexp"@[0] == 'r' && "search"@[0] == 's');
}

proof fn lemma_column_args(args: Seq<Expr>, n: int, usage: Seq<char>)
    requires
        0 <= n <= args.len(),
    ensures
        column_args(args, n, usage) is Ok <==> forall|i: int|
            0 <= i < n ==> (#[trigger] args[i]) is Column,
        column_args(args, n, usage) matches Ok(cs) ==> cs.len() == n && forall|i: int|
            0 <= i < n ==> is_column(args[i], #[trigger] cs[i]),
    decreases n,
{
    if n > 0 {
        lemma_column_args(args, n - 1, usage);
    }
}

/// A call of a search predicate becomes the query that asks the same of the
/// index: of its kind, on its columns, for its text, with its bounds; and it
/// becomes one wherever such a query exists.
pub proof fn predicates_become_their_queries(name: Seq<char>, args: Vec<Expr>, q: QueryView)
    requires
        name != "boosted"@,
    ensures
        func_query(name, args) == Ok::<QueryView, ErrorView>(q) <==> asks(name, args@, q),
{
    lemma_names_differ();
    let n = args@.len();
    if (name == "match_cross"@ || name == "match_best"@) && n >= 3 {
        let usage = "MATCH_CROSS(column, ..., 'text')"@;
        lemma_column_args(args@, n - 1, usage);
        if asks(name, args@, q) {
            let fields = q->MultiMatch_fields;
            assert forall|i: int| 0 <= i < n - 1 implies (#[trigger] args@[i]) is Column by {
                assert(is_column(args@[i], fields[i]));
            }
            let cs = column_args(args@, n - 1, usage)->Ok_0;
            assert forall|i: int| 0 <= i < n - 1 implies cs[i] == fields[i] by {
                assert(is_column(args@[i], fields[i]));
                assert(is_column(args@[i], cs[i]));
            }
            assert(cs =~= fields);
        }
    }
}

/// Whether what is true of the single conditions of a filter and what is true
/// of the single queries of an index go together: a call and the query that
/// asks the same are true of the same rows.
pub open spec fn index_agrees(
    conditions: Set<Expr>,
    queries: Set<QueryView>,
) -> bool {
    forall|e: Expr, q: QueryView|
        #![trigger conditions.contains(e), queries.contains(q)]
        (e matches Expr::Func { name, args } && asks(name@, args@, q)) ==> conditions.contains(e) == queries.contains(q)
}

proof fn lemma_parts(q: QueryView, queries: Set<QueryView>)
    ensures
        q matches QueryView::All(subs) ==> (query_true(q, queries) <==> forall|i: int|
            0 <= i < subs.len() ==> query_true(#[trigger] subs[i], queries)),
        q matches QueryView::Any(subs) ==> (query_true(q, queries) <==> exists|i: int|
            0 <= i < subs.len() && query_true(#[trigger] subs[i], queries)),
{
}

proof fn lemma_pair_true(q: QueryView, l: QueryView, r: QueryView, queries: Set<QueryView>)
    ensures
        q == QueryView::All(seq![l, r]) ==> query_true(q, queries) == (query_true(l, queries)
            && query_true(r, queries)),
        q == QueryView::Any(seq![l, r]) ==> query_true(q, queries) == (query_true(l, queries)
            || query_true(r, queries)),
{
    lemma_parts(q, queries);
    let both = seq![l, r];
    assert(both.len() == 2 && both[0] == l && both[1] == r);
}

/// A search expression becomes a query that is true of just the rows that the
/// expression is true of, whatever its single predicates are true of.
pub proof fn queries_mean_what_they_came_from(
    e: Expr,
    conditions: Set<Expr>,
    queries: Set<QueryView>,
)
    requires
        pure_search(e),
        index_agrees(conditions, queries),
    ensures
        expr_query(e) matches Ok(q) ==> query_true(q, queries) == search_true(e, conditions),
    decreases e,
{
    if let Ok(q) = expr_query(e) {
        match e {
            Expr::Func { name, args } => {
                if name@ == "boosted"@ {
                    lemma_names_differ();
                    assert(func_query("boosted"@, args) == Ok::<QueryView, ErrorView>(q));
                    assert(args@.len() > 1);
                    assert(pure_search(args@[0]));
                    queries_mean_what_they_came_from(args@[0], conditions, queries);
                } else {
                    predicates_become_their_queries(name@, args, q);
                    assert(conditions.contains(e) == queries.contains(q));
                }
            },
            Expr::Binary { op, left, right } => {
                queries_mean_what_they_came_from(*left, conditions, queries);
                queries_mean_what_they_came_from(*right, conditions, queries);
                let l = expr_query(*left)->Ok_0;
                let r = expr_query(*right)->Ok_0;
                lemma_pair_true(q, l, r, queries);
            },
            Expr::Unary { op, expr } => {
                queries_mean_what_they_came_from(*expr, conditions, queries);
            },
            _ => {},
        }
    }
}

/// A boosted query requires its first argument and prefers the others, each
/// the query of its argument.
pub proof fn boosted_prefers_its_other_arguments(args: Vec<Expr>, i: int)
    requires
        1 <= i < args@.len(),
    ensures
        func_query("boosted"@, args) matches Ok(q) ==> {
            &&& q is Boosted
            &&& expr_query(args@[0]) == Ok::<QueryView, ErrorView>(*q->required)
            &&& q->optional.len() == args@.len() - 1
            &&& expr_query(args@[i]) == Ok::<QueryView, ErrorView>(q->optional[i - 1])
        },
{
    lemma_names_differ();
    if let Ok(q) = func_query("boosted"@, args) {
        lemma_queries_from(args, args@.len() as int);
    }
}

proof fn lemma_queries_from(args: Vec<Expr>, n: int)
    requires
        1 <= n <= args@.len(),
    ensures
        crate::search::queries_from(args, n) matches Ok(qs) ==> qs.len() == n - 1 && forall|i: int|
            1 <= i < n ==> expr_query(#[trigger] args@[i]) == Ok::<QueryView, ErrorView>(qs[i - 1]),
    decreases n,
{
    if n > 1 {
        lemma_queries_from(args, n - 1);
    }
}

/// One query for several is true where each of them is.
pub proof fn combined_query_means_all(qs: Seq<QueryView>, queries: Set<QueryView>)
    ensures
        combined(qs) is None <==> qs.len() == 0,
        combined(qs) matches Some(q) ==> (query_true(q, queries) <==> forall|i: int|
            0 <= i < qs.len() ==> query_true(#[trigger] qs[i], queries)),
{
    if let Some(q) = combined(qs) {
        lemma_parts(q, queries);
    }
    if qs.len() == 1 {
        if query_true(qs[0], queries) {
            assert forall|i: int| 0 <= i < qs.len() implies query_true(
                #[trigger] qs[i],
                queries,
            ) by {}
        }
    }
}

/// Whether a filter is true of a row, given its single conditions that are:
/// `AND` is true where both sides are.
pub open spec fn conjunction_true(e: Expr, condition: Set<Expr>) -> bool
    decreases e,
{
    match e {
        Expr::Binary { op, left, right } => if op == BinaryOp::And {
            conjunction_true(*left, condition) && conjunction_true(*right, condition)
        } else {
            condition.contains(e)
        },
        _ => condition.contains(e),
    }
}

/// Whether every condition of a list is true of a row.
pub open spec fn all_true(es: Seq<Expr>, condition: Set<Expr>) -> bool {
    forall|i: int| 0 <= i < es.len() ==> condition.contains(#[trigger] es[i])
}

/// A filter is true where every one of its conjuncts is.
pub proof fn conjuncts_mean_their_filter(e: Expr, condition: Set<Expr>)
    ensures
        conjunction_true(e, condition) <==> all_true(conjuncts(e), condition),
    decreases e,
{
    match e {
        Expr::Binary { op, left, right } if op == BinaryOp::And => {
            conjuncts_mean_their_filter(*left, condition);
            conjuncts_mean_their_filter(*right, condition);
            let l = conjuncts(*left);
            let r = conjuncts(*right);
            let both = l + r;
            if all_true(both, condition) {
                assert forall|i: int| 0 <= i < l.len() implies condition.contains(#[trigger] l[i]) by {
                    assert(both[i] == l[i]);
                }
                assert forall|i: int| 0 <= i < r.len() implies condition.contains(#[trigger] r[i]) by {
                    assert(both[l.len() + i] == r[i]);
                }
            }
        },
        _ => {
            assert(conjuncts(e)[0] == e);
            assert(conjuncts(e).len() == 1);
            if all_true(conjuncts(e), condition) {
                assert(condition.contains(conjuncts(e)[0]));
            }
        },
    }
}

/// The conjuncts that are true of a row: a search expression by its predicates,
/// any other as it is decided.
pub open spec fn true_conjuncts(
    conditions: Set<Expr>,
    decided: Set<Expr>,
) -> Set<Expr> {
    Set::new(
        |e: Expr|
            if pure_search(e) {
                search_true(e, conditions)
            } else {
                decided.contains(e)
            },
    )
}

/// Whether every query of a list is true of a row.
pub open spec fn all_queries_true(
    qs: Seq<QueryView>,
    queries: Set<QueryView>,
) -> bool {
    forall|i: int| 0 <= i < qs.len() ==> query_true(#[trigger] qs[i], queries)
}

proof fn lemma_split_means(
    es: Seq<Expr>,
    conditions: Set<Expr>,
    queries: Set<QueryView>,
    decided: Set<Expr>,
)
    requires
        index_agrees(conditions, queries),
    ensures
        split_conjuncts(es) matches Ok(s) ==> (all_true(es, true_conjuncts(conditions, decided))
            <==> all_queries_true(s.queries, queries) && all_true(s.residual, decided)),
    decreases es.len(),
{
    if es.len() > 0 {
        let init = es.drop_last();
        let e = es.last();
        let c = true_conjuncts(conditions, decided);
        lemma_split_means(init, conditions, queries, decided);
        if let Ok(s) = split_conjuncts(es) {
            let b = split_conjuncts(init)->Ok_0;
            assert(es =~= init.push(e));
            assert(all_true(es, c) <==> all_true(init, c) && c.contains(e)) by {
                if all_true(es, c) {
                    assert forall|i: int| 0 <= i < init.len() implies c.contains(#[trigger] init[i]) by {
                        assert(c.contains(es[i]));
                    }
                    assert(c.contains(es[es.len() - 1]));
                }
            }
            if pure_search(e) {
                queries_mean_what_they_came_from(e, conditions, queries);
                let q = expr_query(e)->Ok_0;
                assert(s.queries == b.queries.push(q));
                assert(all_queries_true(s.queries, queries) <==> all_queries_true(
                    b.queries,
                    queries,
                ) && query_true(q, queries)) by {
                    if all_queries_true(s.queries, queries) {
                        assert forall|i: int| 0 <= i < b.queries.len() implies query_true(
                            #[trigger] b.queries[i],
                            queries,
                        ) by {
                            assert(query_true(s.queries[i], queries));
                        }
                        assert(query_true(s.queries[s.queries.len() - 1], queries));
                    }
                }
            } else {
                assert(s.residual == b.residual.push(e));
                assert(all_true(s.residual, decided) <==> all_true(b.residual, decided) && decided.contains(
                    e,
                )) by {
                    if all_true(s.residual, decided) {
                        assert forall|i: int| 0 <= i < b.residual.len() implies decided.contains(
                            #[trigger] b.residual[i],
                        ) by {
                            assert(decided.contains(s.residual[i]));
                        }
                        assert(decided.contains(s.residual[s.residual.len() - 1]));
                    }
                }
            }
        }
    }
}

/// A filter split in two loses nothing: it is true of a row just where every
/// query of the one part and every condition of the other is.
pub proof fn split_filters_mean_the_whole(
    filter: Option<Expr>,
    conditions: Set<Expr>,
    queries: Set<QueryView>,
    decided: Set<Expr>,
)
    requires
        index_agrees(conditions, queries),
    ensures
        split_filter(filter) matches Ok(s) ==> ((filter matches Some(e) ==> conjunction_true(
            e,
            true_conjuncts(conditions, decided),
        )) <==> all_queries_true(s.queries, queries) && all_true(s.residual, decided)),
{
    if let Some(e) = filter {
        conjuncts_mean_their_filter(e, true_conjuncts(conditions, decided));
        lemma_split_means(conjuncts(e), conditions, queries, decided);
    }
}

/// Whether a query targets a field.
pub open spec fn targets(q: QueryView, n: Seq<char>) -> bool
    decreases q,
{
    match q {
        QueryView::Match { field, .. } => field == Some(n),
        QueryView::Phrase { field, .. } => field == Some(n),
        QueryView::Fuzzy { field, .. } => field == Some(n),
        QueryView::Prefix { field, .. } => field == Some(n),
        QueryView::Wildcard { field, .. } => field == Some(n),
        QueryView::Regexp { field, .. } => field == Some(n),
        QueryView::MoreLikeThis { field, .. } => field == Some(n),
        QueryView::QueryString(_) => false,
        QueryView::All(subs) => exists|i: int|
            0 <= i < subs.len() && targets(#[trigger] subs[i], n),
        QueryView::Any(subs) => exists|i: int|
            0 <= i < subs.len() && targets(#[trigger] subs[i], n),
        QueryView::Not(sub) => targets(*sub, n),
        QueryView::MultiMatch { fields, .. } => fields.contains(n),
        QueryView::Boosted { required, optional } => targets(*required, n) || exists|i: int|
            0 <= i < optional.len() && targets(#[trigger] optional[i], n),
    }
}

proof fn lemma_with_name(out: Seq<Seq<char>>, name: Seq<char>, n: Seq<char>)
    ensures
        with_name(out, name).contains(n) <==> out.contains(n) || n == name,
        out.no_duplicates() ==> with_name(out, name).no_duplicates(),
{
    if !out.contains(name) {
        let r = out.push(name);
        assert(r[out.len() as int] == name);
        if out.contains(n) {
            let i = choose|i: int| 0 <= i < out.len() && out[i] == n;
            assert(r[i] == n);
        }
    }
}

proof fn lemma_with_names(out: Seq<Seq<char>>, names: Seq<Seq<char>>, n: Seq<char>)
    ensures
        with_names(out, names).contains(n) <==> out.contains(n) || names.contains(n),
        out.no_duplicates() ==> with_names(out, names).no_duplicates(),
    decreases names.len(),
{
    if names.len() > 0 {
        let init = names.drop_last();
        lemma_with_names(out, init, n);
        lemma_with_name(with_names(out, init), names.last(), n);
        if names.contains(n) {
            let i = choose|i: int| 0 <= i < names.len() && names[i] == n;
            if i < init.len() {
                assert(init[i] == n);
            }
        }
        if init.contains(n) {
            let i = choose|i: int| 0 <= i < init.len() && init[i] == n;
            assert(names[i] == n);
        }
        assert(names[names.len() - 1] == names.last());
    }
}

/// The fields collected from a query are those that it targets, beside those
/// already there, none twice.
pub proof fn fields_are_those_targeted(q: QueryView, out: Seq<Seq<char>>, n: Seq<char>)
    ensures
        fields_into(q, out).contains(n) <==> out.contains(n) || targets(q, n),
        out.no_duplicates() ==> fields_into(q, out).no_duplicates(),
    decreases q, 0int,
{
    match q {
        QueryView::Match { field, .. } => {
            if let Some(f) = field {
                lemma_with_name(out, f, n);
            }
        },
        QueryView::Phrase { field, .. } => {
            if let Some(f) = field {
                lemma_with_name(out, f, n);
            }
        },
        QueryView::Fuzzy { field, .. } => {
            if let Some(f) = field {
                lemma_with_name(out, f, n);
            }
        },
        QueryView::Prefix { field, .. } => {
            if let Some(f) = field {
                lemma_with_name(out, f, n);
            }
        },
        QueryView::Wildcard { field, .. } => {
            if let Some(f) = field {
                lemma_with_name(out, f, n);
            }
        },
        QueryView::Regexp { field, .. } => {
            if let Some(f) = field {
                lemma_with_name(out, f, n);
            }
        },
        QueryView::MoreLikeThis { field, .. } => {
            if let Some(f) = field {
                lemma_with_name(out, f, n);
            }
        },
        QueryView::QueryString(_) => {},
        QueryView::All(subs) => {
            lemma_all_fields(subs, subs.len() as int, out, n);
        },
        QueryView::Any(subs) => {
            lemma_all_fields(subs, subs.len() as int, out, n);
        },
        QueryView::Not(sub) => {
            fields_are_those_targeted(*sub, out, n);
        },
        QueryView::MultiMatch { fields, .. } => {
            lemma_with_names(out, fields, n);
        },
        QueryView::Boosted { required, optional } => {
            fields_are_those_targeted(*required, out, n);
            lemma_all_fields(optional, optional.len() as int, fields_into(*required, out), n);
        },
    }
}

proof fn lemma_all_fields(subs: Seq<QueryView>, k: int, out: Seq<Seq<char>>, n: Seq<char>)
    requires
        0 <= k <= subs.len(),
    ensures
        all_fields_into(subs, k, out).contains(n) <==> out.contains(n) || exists|i: int|
            0 <= i < k && targets(#[trigger] subs[i], n),
        out.no_duplicates() ==> all_fields_into(subs, k, out).no_duplicates(),
    decreases subs, k,
{
    if k > 0 {
        lemma_all_fields(subs, k - 1, out, n);
        fields_are_those_targeted(subs[k - 1], all_fields_into(subs, k - 1, out), n);
    }
}

/// Whether a text is one that a query looks for: not under a negation, and not
/// a pattern.
pub open spec fn looks_for(q: QueryView, t: Seq<char>) -> bool
    decreases q,
{
    match q {
        QueryView::Match { text, .. } => text == t,
        QueryView::Phrase { text, .. } => text == t,
        QueryView::Fuzzy { text, .. } => text == t,
        QueryView::Prefix { text, .. } => text == t,
        QueryView::MoreLikeThis { text, .. } => text == t,
        QueryView::MultiMatch { text, .. } => text == t,
        QueryView::QueryString(text) => text == t,
        QueryView::Wildcard { .. } => false,
        QueryView::Regexp { .. } => false,
        QueryView::Not(_) => false,
        QueryView::All(subs) => exists|i: int|
            0 <= i < subs.len() && looks_for(#[trigger] subs[i], t),
        QueryView::Any(subs) => exists|i: int|
            0 <= i < subs.len() && looks_for(#[trigger] subs[i], t),
        QueryView::Boosted { required, optional } => looks_for(*required, t) || exists|i: int|
            0 <= i < optional.len() && looks_for(#[trigger] optional[i], t),
    }
}

/// The texts collected from a query are those that it looks for, beside those
/// already there, none twice.
pub proof fn texts_are_those_looked_for(q: QueryView, out: Seq<Seq<char>>, t: Seq<char>)
    ensures
        texts_into(q, out).contains(t) <==> out.contains(t) || looks_for(q, t),
        out.no_duplicates() ==> texts_into(q, out).no_duplicates(),
    decreases q, 0int,
{
    match q {
        QueryView::Match { text, .. } => {
            lemma_with_name(out, text, t);
        },
        QueryView::Phrase { text, .. } => {
            lemma_with_name(out, text, t);
        },
        QueryView::Fuzzy { text, .. } => {
            lemma_with_name(out, text, t);
        },
        QueryView::Prefix { text, .. } => {
            lemma_with_name(out, text, t);
        },
        QueryView::MoreLikeThis { text, .. } => {
            lemma_with_name(out, text, t);
        },
        QueryView::MultiMatch { text, .. } => {
            lemma_with_name(out, text, t);
        },
        QueryView::QueryString(text) => {
            lemma_with_name(out, text, t);
        },
        QueryView::All(subs) => {
            lemma_all_texts(subs, subs.len() as int, out, t);
        },
        QueryView::Any(subs) => {
            lemma_all_texts(subs, subs.len() as int, out, t);
        },
        QueryView::Boosted { required, optional } => {
            texts_are_those_looked_for(*required, out, t);
            lemma_all_texts(optional, optional.len() as int, texts_into(*required, out), t);
        },
        _ => {},
    }
}

proof fn lemma_all_texts(subs: Seq<QueryView>, k: int, out: Seq<Seq<char>>, t: Seq<char>)
    requires
        0 <= k <= subs.len(),
    ensures
        all_texts_into(subs, k, out).contains(t) <==> out.contains(t) || exists|i: int|
            0 <= i < k && looks_for(#[trigger] subs[i], t),
        out.no_duplicates() ==> all_texts_into(subs, k, out).no_duplicates(),
    decreases subs, k,
{
    if k > 0 {
        lemma_all_texts(subs, k - 1, out, t);
        texts_are_those_looked_for(subs[k - 1], all_texts_into(subs, k - 1, out), t);
    }
}

} // verus!
