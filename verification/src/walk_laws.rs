//! What is collected from expressions: the columns they read and the highlights
//! they ask for.

use vstd::prelude::*;

use crate::ast::AggArg;
use crate::ast::Expr;
use crate::ast::SelectItem;
use crate::highlight::highlight_of;
use crate::highlight::is_highlight;
use crate::highlight::place_of_req;
use crate::highlight::requests_in;
use crate::highlight::requests_in_list;
use crate::highlight::requests_of;
use crate::highlight::with_req;
use crate::highlight::OptsView;
use crate::highlight::ReqView;
use crate::query_laws::is_column;
use crate::query_laws::is_count;
use crate::query_laws::is_text;
use crate::search::with_name;
use crate::select_plan::columns_into;
use crate::select_plan::list_columns_into;

verus! {

/// Whether an expression names a column anywhere. The argument of a `DISTINCT`
/// aggregate is not looked at.
pub open spec fn names_column(e: Expr, c: Seq<char>) -> bool
    decreases e,
{
    match e {
        Expr::Column(x) => x@ == c,
        Expr::Unary { expr, .. } => names_column(*expr, c),
        Expr::IsNull { expr, .. } => names_column(*expr, c),
        Expr::Binary { left, right, .. } => names_column(*left, c) || names_column(*right, c),
        Expr::InList { expr, list, .. } => names_column(*expr, c) || exists|i: int|
            0 <= i < list@.len() && names_column(#[trigger] list@[i], c),
        Expr::Between { expr, lo, hi, .. } => names_column(*expr, c) || names_column(*lo, c)
            || names_column(*hi, c),
        Expr::Like { expr, pattern, .. } => names_column(*expr, c) || names_column(*pattern, c),
        Expr::Func { args, .. } => exists|i: int|
            0 <= i < args@.len() && names_column(#[trigger] args@[i], c),
        Expr::Aggregate { arg, .. } => match arg {
            AggArg::Expr(a) => names_column(*a, c),
            _ => false,
        },
        Expr::Literal(_) => false,
        Expr::Parameter(_) => false,
    }
}

proof fn lemma_name_added(out: Seq<Seq<char>>, name: Seq<char>, c: Seq<char>)
    ensures
        with_name(out, name).contains(c) <==> out.contains(c) || c == name,
        out.no_duplicates() ==> with_name(out, name).no_duplicates(),
{
    if !out.contains(name) {
        let r = out.push(name);
        assert(r[out.len() as int] == name);
        if out.contains(c) {
            let i = choose|i: int| 0 <= i < out.len() && out[i] == c;
            assert(r[i] == c);
        }
    }
}

/// The columns collected from an expression are those that it names, beside
/// those already there, none twice.
pub proof fn columns_are_those_named(e: Expr, out: Seq<Seq<char>>, c: Seq<char>)
    ensures
        columns_into(e, out).contains(c) <==> out.contains(c) || names_column(e, c),
        out.no_duplicates() ==> columns_into(e, out).no_duplicates(),
    decreases e, 0int,
{
    match e {
        Expr::Column(x) => {
            lemma_name_added(out, x@, c);
        },
        Expr::Unary { expr, .. } => {
            columns_are_those_named(*expr, out, c);
        },
        Expr::IsNull { expr, .. } => {
            columns_are_those_named(*expr, out, c);
        },
        Expr::Binary { left, right, .. } => {
            columns_are_those_named(*left, out, c);
            columns_are_those_named(*right, columns_into(*left, out), c);
        },
        Expr::InList { expr, list, .. } => {
            columns_are_those_named(*expr, out, c);
            lemma_list_columns(list, list@.len() as int, columns_into(*expr, out), c);
        },
        Expr::Between { expr, lo, hi, .. } => {
            columns_are_those_named(*expr, out, c);
            let a = columns_into(*expr, out);
            columns_are_those_named(*lo, a, c);
            columns_are_those_named(*hi, columns_into(*lo, a), c);
        },
        Expr::Like { expr, pattern, .. } => {
            columns_are_those_named(*expr, out, c);
            columns_are_those_named(*pattern, columns_into(*expr, out), c);
        },
        Expr::Func { args, .. } => {
            lemma_list_columns(args, args@.len() as int, out, c);
        },
        Expr::Aggregate { arg, .. } => {
            if let AggArg::Expr(a) = arg {
                columns_are_those_named(*a, out, c);
            }
        },
        _ => {},
    }
}

proof fn lemma_list_columns(list: Vec<Expr>, n: int, out: Seq<Seq<char>>, c: Seq<char>)
    requires
        0 <= n <= list@.len(),
    ensures
        list_columns_into(list, n, out).contains(c) <==> out.contains(c) || exists|i: int|
            0 <= i < n && names_column(#[trigger] list@[i], c),
        out.no_duplicates() ==> list_columns_into(list, n, out).no_duplicates(),
    decreases list, n,
{
    if n > 0 {
        lemma_list_columns(list, n - 1, out, c);
        columns_are_those_named(list@[n - 1], list_columns_into(list, n - 1, out), c);
    }
}

/// Whether an expression asks for a highlight anywhere.
pub open spec fn asks_highlight(e: Expr, r: ReqView, d: OptsView) -> bool
    decreases e,
{
    match e {
        Expr::Func { name, args } => if name@ == "highlight"@ {
            highlight_of(args@, d) == Some(r)
        } else {
            exists|i: int| 0 <= i < args@.len() && asks_highlight(#[trigger] args@[i], r, d)
        },
        Expr::Unary { expr, .. } => asks_highlight(*expr, r, d),
        Expr::IsNull { expr, .. } => asks_highlight(*expr, r, d),
        Expr::Binary { left, right, .. } => asks_highlight(*left, r, d) || asks_highlight(
            *right,
            r,
            d,
        ),
        Expr::Aggregate { arg, .. } => match arg {
            AggArg::Expr(a) => asks_highlight(*a, r, d),
            _ => false,
        },
        Expr::InList { expr, list, .. } => asks_highlight(*expr, r, d) || exists|i: int|
            0 <= i < list@.len() && asks_highlight(#[trigger] list@[i], r, d),
        Expr::Between { expr, lo, hi, .. } => asks_highlight(*expr, r, d) || asks_highlight(
            *lo,
            r,
            d,
        ) || asks_highlight(*hi, r, d),
        Expr::Like { expr, pattern, .. } => asks_highlight(*expr, r, d) || asks_highlight(
            *pattern,
            r,
            d,
        ),
        _ => false,
    }
}

/// Whether no column is asked for twice.
pub open spec fn asked_once(rs: Seq<ReqView>) -> bool {
    forall|i: int, j: int|
        0 <= i < j < rs.len() ==> (#[trigger] rs[i]).0 != (#[trigger] rs[j]).0
}

proof fn lemma_with_req(rs: Seq<ReqView>, r: ReqView, x: ReqView)
    ensures
        with_req(rs, r) matches Ok(out) ==> (out.contains(x) <==> rs.contains(x) || x == r) && (
        asked_once(rs) ==> asked_once(out)),
{
    lemma_place(rs, r.0);
    let p = place_of_req(rs, r.0);
    if p < rs.len() {
        if rs[p].1 == r.1 {
            assert(rs[p] == r);
            assert(rs.contains(r));
        }
    } else {
        let out = rs.push(r);
        assert(out[rs.len() as int] == r);
        if rs.contains(x) {
            let i = choose|i: int| 0 <= i < rs.len() && rs[i] == x;
            assert(out[i] == x);
        }
    }
}

proof fn lemma_place(rs: Seq<ReqView>, col: Seq<char>)
    ensures
        0 <= place_of_req(rs, col) <= rs.len(),
        place_of_req(rs, col) < rs.len() ==> rs[place_of_req(rs, col)].0 == col,
        forall|i: int| 0 <= i < place_of_req(rs, col) ==> (#[trigger] rs[i]).0 != col,
    decreases rs.len(),
{
    if rs.len() > 0 && rs[0].0 != col {
        let t = rs.drop_first();
        lemma_place(t, col);
        assert forall|i: int| 0 <= i < place_of_req(rs, col) implies (#[trigger] rs[i]).0 != col by {
            if i > 0 {
                assert(rs[i] == t[i - 1]);
            }
        }
    }
}

/// The highlights collected from an expression are those that it asks for,
/// beside those already there, no column twice.
pub proof fn highlights_are_those_asked_for(e: Expr, rs: Seq<ReqView>, d: OptsView, x: ReqView)
    ensures
        requests_in(e, rs, d) matches Ok(out) ==> (out.contains(x) <==> rs.contains(x)
            || asks_highlight(e, x, d)) && (asked_once(rs) ==> asked_once(out)),
    decreases e, 0int,
{
    match e {
        Expr::Func { name, args } => {
            if is_highlight(name@) {
                if let Some(r) = highlight_of(args@, d) {
                    lemma_with_req(rs, r, x);
                }
            } else {
                lemma_list_requests(args, args@.len() as int, rs, d, x);
            }
        },
        Expr::Unary { expr, .. } => {
            highlights_are_those_asked_for(*expr, rs, d, x);
        },
        Expr::IsNull { expr, .. } => {
            highlights_are_those_asked_for(*expr, rs, d, x);
        },
        Expr::Binary { left, right, .. } => {
            highlights_are_those_asked_for(*left, rs, d, x);
            if let Ok(a) = requests_in(*left, rs, d) {
                highlights_are_those_asked_for(*right, a, d, x);
            }
        },
        Expr::Aggregate { arg, .. } => {
            if let AggArg::Expr(a) = arg {
                highlights_are_those_asked_for(*a, rs, d, x);
            }
        },
        Expr::InList { expr, list, .. } => {
            highlights_are_those_asked_for(*expr, rs, d, x);
            if let Ok(a) = requests_in(*expr, rs, d) {
                lemma_list_requests(list, list@.len() as int, a, d, x);
            }
        },
        Expr::Between { expr, lo, hi, .. } => {
            highlights_are_those_asked_for(*expr, rs, d, x);
            if let Ok(a) = requests_in(*expr, rs, d) {
                highlights_are_those_asked_for(*lo, a, d, x);
                if let Ok(b) = requests_in(*lo, a, d) {
                    highlights_are_those_asked_for(*hi, b, d, x);
                }
            }
        },
        Expr::Like { expr, pattern, .. } => {
            highlights_are_those_asked_for(*expr, rs, d, x);
            if let Ok(a) = requests_in(*expr, rs, d) {
                highlights_are_those_asked_for(*pattern, a, d, x);
            }
        },
        _ => {},
    }
}

proof fn lemma_list_requests(list: Vec<Expr>, n: int, rs: Seq<ReqView>, d: OptsView, x: ReqView)
    requires
        0 <= n <= list@.len(),
    ensures
        requests_in_list(list, n, rs, d) matches Ok(out) ==> (out.contains(x) <==> rs.contains(x)
            || exists|i: int| 0 <= i < n && asks_highlight(#[trigger] list@[i], x, d)) && (
        asked_once(rs) ==> asked_once(out)),
    decreases list, n,
{
    if n > 0 {
        lemma_list_requests(list, n - 1, rs, d, x);
        if let Ok(a) = requests_in_list(list, n - 1, rs, d) {
            highlights_are_those_asked_for(list@[n - 1], a, d, x);
        }
    }
}

/// The highlights of a query are those that its projected expressions ask for,
/// no column twice.
pub proof fn queries_highlight_what_they_show(
    items: Seq<SelectItem>,
    n: int,
    d: OptsView,
    x: ReqView,
)
    requires
        0 <= n <= items.len(),
    ensures
        requests_of(items, n, d) matches Ok(out) ==> asked_once(out) && (out.contains(x)
            <==> exists|i: int|
            0 <= i < n && ((#[trigger] items[i]) matches SelectItem::Expr { expr, .. }
                && asks_highlight(expr, x, d))),
    decreases n,
{
    if n > 0 {
        queries_highlight_what_they_show(items, n - 1, d, x);
        if let Ok(a) = requests_of(items, n - 1, d) {
            if let SelectItem::Expr { expr, .. } = items[n - 1] {
                highlights_are_those_asked_for(expr, a, d, x);
                if requests_of(items, n, d) is Ok {
                    if asks_highlight(expr, x, d) {
                        assert(items[n - 1] matches SelectItem::Expr { expr, .. } && asks_highlight(
                            expr,
                            x,
                            d,
                        ));
                    }
                }
            }
        }
    }
}

/// A highlight takes its column, its size, its tags, its floor and its number of
/// fragments from its arguments in that order, the tags as a pair, and from the
/// defaults what is not given.
pub proof fn highlights_take_their_arguments(args: Seq<Expr>, d: OptsView, r: ReqView)
    ensures
        highlight_of(args, d) == Some(r) <==> {
            let n = args.len();
            let o = r.1;
            &&& n == 1 || n == 2 || n == 4 || n == 5 || n == 6
            &&& is_column(args[0], r.0)
            &&& if n > 1 {
                o.max_chars > 0 && is_count(args[1], o.max_chars as int)
            } else {
                o.max_chars == d.max_chars
            }
            &&& if n > 2 {
                is_text(args[2], o.pre_tag) && is_text(args[3], o.post_tag)
            } else {
                o.pre_tag == d.pre_tag && o.post_tag == d.post_tag
            }
            &&& if n > 4 {
                is_count(args[4], o.no_match_size as int)
            } else {
                o.no_match_size == d.no_match_size
            }
            &&& if n > 5 {
                1 <= o.fragments <= 10 && is_count(args[5], o.fragments as int)
            } else {
                o.fragments == d.fragments
            }
        },
{
}

} // verus!
