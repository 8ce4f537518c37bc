//! Full-text predicates: telling them from ordinary ones, and turning them
//! into search queries.

use vstd::prelude::*;

use crate::ast::AggArg;
use crate::ast::BinaryOp;
use crate::ast::Expr;
use crate::ast::Select;
use crate::ast::SelectItem;
use crate::ast::UnaryOp;
use crate::auth::contains_name;
use crate::database::verdict;
use crate::error::type_error;
use crate::error::unsupported;
use crate::error::EngineError;
use crate::error::ErrorView;
use crate::text::cat;
use crate::text::cat3;
use crate::text::str_eq;
use crate::text::views;
use crate::value::Value;

verus! {

/// A search query as the index serves it.
pub enum SearchQuery {
    Match { field: Option<String>, text: String },
    Phrase { field: Option<String>, text: String, slop: u32 },
    Fuzzy { field: Option<String>, text: String, distance: u8 },
    Prefix { field: Option<String>, text: String },
    Wildcard { field: Option<String>, pattern: String },
    Regexp { field: Option<String>, pattern: String },
    MoreLikeThis { field: Option<String>, text: String },
    QueryString(String),
    All(Vec<SearchQuery>),
    Any(Vec<SearchQuery>),
    Not(Box<SearchQuery>),
    MultiMatch { fields: Vec<String>, text: String, term_centric: bool },
    Boosted { required: Box<SearchQuery>, optional: Vec<SearchQuery> },
}

pub enum QueryView {
    Match { field: Option<Seq<char>>, text: Seq<char> },
    Phrase { field: Option<Seq<char>>, text: Seq<char>, slop: u32 },
    Fuzzy { field: Option<Seq<char>>, text: Seq<char>, distance: u8 },
    Prefix { field: Option<Seq<char>>, text: Seq<char> },
    Wildcard { field: Option<Seq<char>>, pattern: Seq<char> },
    Regexp { field: Option<Seq<char>>, pattern: Seq<char> },
    MoreLikeThis { field: Option<Seq<char>>, text: Seq<char> },
    QueryString(Seq<char>),
    All(Seq<QueryView>),
    Any(Seq<QueryView>),
    Not(Box<QueryView>),
    MultiMatch { fields: Seq<Seq<char>>, text: Seq<char>, term_centric: bool },
    Boosted { required: Box<QueryView>, optional: Seq<QueryView> },
}

/// An optional field by its characters.
pub open spec fn field_view(f: Option<String>) -> Option<Seq<char>> {
    match f {
        Some(s) => Some(s@),
        None => None,
    }
}

/// A query by the characters of its fields and texts.
pub open spec fn query_view(q: SearchQuery) -> QueryView
    decreases q,
{
    match q {
        SearchQuery::Match { field, text } => QueryView::Match {
            field: field_view(field),
            text: text@,
        },
        SearchQuery::Phrase { field, text, slop } => QueryView::Phrase {
            field: field_view(field),
            text: text@,
            slop,
        },
        SearchQuery::Fuzzy { field, text, distance } => QueryView::Fuzzy {
            field: field_view(field),
            text: text@,
            distance,
        },
        SearchQuery::Prefix { field, text } => QueryView::Prefix {
            field: field_view(field),
            text: text@,
        },
        SearchQuery::Wildcard { field, pattern } => QueryView::Wildcard {
            field: field_view(field),
            pattern: pattern@,
        },
        SearchQuery::Regexp { field, pattern } => QueryView::Regexp {
            field: field_view(field),
            pattern: pattern@,
        },
        SearchQuery::MoreLikeThis { field, text } => QueryView::MoreLikeThis {
            field: field_view(field),
            text: text@,
        },
        SearchQuery::QueryString(s) => QueryView::QueryString(s@),
        SearchQuery::All(subs) => QueryView::All(
            Seq::new(
                subs@.len(),
                |i: int|
                    if 0 <= i < subs@.len() {
                        query_view(subs@[i])
                    } else {
                        arbitrary()
                    },
            ),
        ),
        SearchQuery::Any(subs) => QueryView::Any(
            Seq::new(
                subs@.len(),
                |i: int|
                    if 0 <= i < subs@.len() {
                        query_view(subs@[i])
                    } else {
                        arbitrary()
                    },
            ),
        ),
        SearchQuery::Not(sub) => QueryView::Not(Box::new(query_view(*sub))),
        SearchQuery::MultiMatch { fields, text, term_centric } => QueryView::MultiMatch {
            fields: views(fields@),
            text: text@,
            term_centric,
        },
        SearchQuery::Boosted { required, optional } => QueryView::Boosted {
            required: Box::new(query_view(*required)),
            optional: Seq::new(
                optional@.len(),
                |i: int|
                    if 0 <= i < optional@.len() {
                        query_view(optional@[i])
                    } else {
                        arbitrary()
                    },
            ),
        },
    }
}

/// A list of queries by what each is.
pub open spec fn query_views(qs: Seq<SearchQuery>) -> Seq<QueryView> {
    Seq::new(qs.len(), |i: int| query_view(qs[i]))
}

/// Whether a function of this name is a search predicate.
pub open spec fn names_search_func(name: Seq<char>) -> bool {
    ||| name == "match"@
    ||| name == "match_phrase"@
    ||| name == "match_prefix"@
    ||| name == "fuzzy"@
    ||| name == "wildcard"@
    ||| name == "regexp"@
    ||| name == "more_like_this"@
    ||| name == "search"@
    ||| name == "boosted"@
    ||| name == "match_cross"@
    ||| name == "match_best"@
}

/// The `MATCH()`-family predicate functions; names arrive in lower case.
pub fn is_search_func(name: &str) -> (r: bool)
    ensures
        r == names_search_func(name@),
{
    str_eq(name, "match") || str_eq(name, "match_phrase") || str_eq(name, "match_prefix")
        || str_eq(name, "fuzzy") || str_eq(name, "wildcard") || str_eq(name, "regexp") || str_eq(
        name,
        "more_like_this",
    ) || str_eq(name, "search") || str_eq(name, "boosted") || str_eq(name, "match_cross")
        || str_eq(name, "match_best")
}

/// The functions that an expression is looked through for.
#[derive(Clone, Copy, Debug, PartialEq, Eq, Structural)]
pub enum FuncSort {
    /// The search predicates.
    Search,
    /// `score()`.
    Score,
}

/// Whether a function's name is of the sort.
pub open spec fn of_sort(sort: FuncSort, name: Seq<char>) -> bool {
    match sort {
        FuncSort::Search => names_search_func(name),
        FuncSort::Score => name == "score"@,
    }
}

/// Whether a function of the sort is called anywhere in `e`. The argument of a
/// `DISTINCT` aggregate is not looked at.
pub open spec fn has_func(e: Expr, sort: FuncSort) -> bool
    decreases e,
{
    match e {
        Expr::Func { name, args } => of_sort(sort, name@) || exists|i: int|
            0 <= i < args@.len() && has_func(#[trigger] args@[i], sort),
        Expr::Unary { expr, .. } => has_func(*expr, sort),
        Expr::IsNull { expr, .. } => has_func(*expr, sort),
        Expr::Binary { left, right, .. } => has_func(*left, sort) || has_func(*right, sort),
        Expr::Aggregate { arg, .. } => match arg {
            AggArg::Expr(a) => has_func(*a, sort),
            _ => false,
        },
        Expr::InList { expr, list, .. } => has_func(*expr, sort) || exists|i: int|
            0 <= i < list@.len() && has_func(#[trigger] list@[i], sort),
        Expr::Between { expr, lo, hi, .. } => has_func(*expr, sort) || has_func(*lo, sort)
            || has_func(*hi, sort),
        Expr::Like { expr, pattern, .. } => has_func(*expr, sort) || has_func(*pattern, sort),
        Expr::Literal(_) => false,
        Expr::Column(_) => false,
        Expr::Parameter(_) => false,
    }
}

fn name_of_sort(sort: FuncSort, name: &str) -> (r: bool)
    ensures
        r == of_sort(sort, name@),
{
    match sort {
        FuncSort::Search => is_search_func(name),
        FuncSort::Score => str_eq(name, "score"),
    }
}

/// Whether a function of the sort appears anywhere in `expr`.
pub fn expr_has_func(expr: &Expr, sort: FuncSort) -> (r: bool)
    ensures
        r == has_func(*expr, sort),
    decreases *expr,
{
    match expr {
        Expr::Func { name, args } => name_of_sort(sort, name.as_str()) || any_has_func(args, sort),
        Expr::Unary { expr, .. } => expr_has_func(expr, sort),
        Expr::IsNull { expr, .. } => expr_has_func(expr, sort),
        Expr::Binary { left, right, .. } => expr_has_func(left, sort) || expr_has_func(right, sort),
        Expr::Aggregate { arg, .. } => match arg {
            AggArg::Expr(a) => expr_has_func(a, sort),
            _ => false,
        },
        Expr::InList { expr, list, .. } => expr_has_func(expr, sort) || any_has_func(list, sort),
        Expr::Between { expr, lo, hi, .. } => expr_has_func(expr, sort) || expr_has_func(lo, sort)
            || expr_has_func(hi, sort),
        Expr::Like { expr, pattern, .. } => expr_has_func(expr, sort) || expr_has_func(
            pattern,
            sort,
        ),
        Expr::Literal(_) => false,
        Expr::Column(_) => false,
        Expr::Parameter(_) => false,
    }
}

fn any_has_func(list: &Vec<Expr>, sort: FuncSort) -> (r: bool)
    ensures
        r == exists|i: int| 0 <= i < list@.len() && has_func(#[trigger] list@[i], sort),
    decreases *list,
{
    let mut i: usize = 0;
    while i < list.len()
        invariant
            i <= list@.len(),
            forall|k: int| 0 <= k < i ==> !has_func(#[trigger] list@[k], sort),
        decreases list@.len() - i,
    {
        if expr_has_func(&list[i], sort) {
            return true;
        }
        i = i + 1;
    }
    false
}

/// Whether `e` is a call of `score()`.
pub open spec fn score_call(e: Expr) -> bool {
    e matches Expr::Func { name, args } && name@ == "score"@ && args@.len() == 0
}

/// Whether `score()` (no arguments) is called.
pub fn is_score_call(expr: &Expr) -> (r: bool)
    ensures
        r == score_call(*expr),
{
    match expr {
        Expr::Func { name, args } => str_eq(name.as_str(), "score") && args.len() == 0,
        _ => false,
    }
}

/// Whether a projected item calls `score()`.
pub open spec fn item_scores(item: SelectItem) -> bool {
    item matches SelectItem::Expr { expr, .. } && has_func(expr, FuncSort::Score)
}

/// Whether a query is a full-text one: a search predicate anywhere in its
/// filter, or `score()` in its projection, its order or its group ranking.
pub open spec fn uses_search(sel: Select) -> bool {
    ||| sel.filter matches Some(f) && has_func(f, FuncSort::Search)
    ||| exists|i: int| 0 <= i < sel.items@.len() && item_scores(#[trigger] sel.items@[i])
    ||| exists|i: int|
        0 <= i < sel.order_by@.len() && has_func(
            (#[trigger] sel.order_by@[i]).expr,
            FuncSort::Score,
        )
    ||| sel.group_top matches Some(t) && has_func(t.by, FuncSort::Score)
}

/// Whether a `SELECT` is a full-text search query.
pub fn select_uses_search(sel: &Select) -> (r: bool)
    ensures
        r == uses_search(*sel),
{
    if let Some(f) = &sel.filter {
        if expr_has_func(f, FuncSort::Search) {
            return true;
        }
    }
    let mut i: usize = 0;
    while i < sel.items.len()
        invariant
            i <= sel.items@.len(),
            forall|k: int| 0 <= k < i ==> !item_scores(#[trigger] sel.items@[k]),
        decreases sel.items@.len() - i,
    {
        if let SelectItem::Expr { expr, .. } = &sel.items[i] {
            if expr_has_func(expr, FuncSort::Score) {
                assert(item_scores(sel.items@[i as int]));
                return true;
            }
        }
        i = i + 1;
    }
    if order_has_score(sel) {
        return true;
    }
    match &sel.group_top {
        Some(t) => expr_has_func(&t.by, FuncSort::Score),
        None => false,
    }
}

/// Whether `score()` is called anywhere in the order.
pub fn order_has_score(sel: &Select) -> (r: bool)
    ensures
        r == exists|i: int|
            0 <= i < sel.order_by@.len() && has_func(
                (#[trigger] sel.order_by@[i]).expr,
                FuncSort::Score,
            ),
{
    let mut i: usize = 0;
    while i < sel.order_by.len()
        invariant
            i <= sel.order_by@.len(),
            forall|k: int|
                0 <= k < i ==> !has_func((#[trigger] sel.order_by@[k]).expr, FuncSort::Score),
        decreases sel.order_by@.len() - i,
    {
        if expr_has_func(&sel.order_by[i].expr, FuncSort::Score) {
            return true;
        }
        i = i + 1;
    }
    false
}

/// Whether `e` is made of search predicates and `AND`, `OR`, `NOT` alone.
pub open spec fn pure_search(e: Expr) -> bool
    decreases e,
{
    match e {
        Expr::Func { name, .. } => names_search_func(name@),
        Expr::Binary { op, left, right } => (op == BinaryOp::And || op == BinaryOp::Or)
            && pure_search(*left) && pure_search(*right),
        Expr::Unary { op, expr } => op == UnaryOp::Not && pure_search(*expr),
        _ => false,
    }
}

/// Whether the whole subtree can push to the index.
pub fn is_pure_search(e: &Expr) -> (r: bool)
    ensures
        r == pure_search(*e),
    decreases *e,
{
    match e {
        Expr::Func { name, .. } => is_search_func(name.as_str()),
        Expr::Binary { op, left, right } => (*op == BinaryOp::And || *op == BinaryOp::Or)
            && is_pure_search(left) && is_pure_search(right),
        Expr::Unary { op, expr } => *op == UnaryOp::Not && is_pure_search(expr),
        _ => false,
    }
}

/// The column that an argument names, or the error for `usage`.
pub open spec fn column_arg(e: Expr, usage: Seq<char>) -> Result<Seq<char>, ErrorView> {
    match e {
        Expr::Column(path) => Ok(path@),
        _ => Err(ErrorView::Type(usage + " takes a column as its first argument"@)),
    }
}

/// The text that an argument gives, or the error for `usage`.
pub open spec fn text_arg(e: Expr, usage: Seq<char>) -> Result<Seq<char>, ErrorView> {
    match e {
        Expr::Literal(Value::String(s)) => Ok(s@),
        _ => Err(ErrorView::Type(usage + " takes a string literal as its query text"@)),
    }
}

/// The number that an argument gives, or the error for `usage`.
pub open spec fn uint_arg(e: Expr, usage: Seq<char>) -> Result<u64, ErrorView> {
    match e {
        Expr::Literal(Value::Int(i)) => if i >= 0 {
            Ok(i as u64)
        } else {
            Err(ErrorView::Type(usage + " must be a non-negative integer literal"@))
        },
        _ => Err(ErrorView::Type(usage + " must be a non-negative integer literal"@)),
    }
}

/// A column and a text, the column's error first.
pub open spec fn column_and_text(col: Expr, text: Expr, usage: Seq<char>) -> Result<
    (Seq<char>, Seq<char>),
    ErrorView,
> {
    match column_arg(col, usage) {
        Err(e) => Err(e),
        Ok(c) => match text_arg(text, usage) {
            Err(e) => Err(e),
            Ok(t) => Ok((c, t)),
        },
    }
}

/// The columns that the first `n` arguments name, the first error first.
pub open spec fn column_args(args: Seq<Expr>, n: int, usage: Seq<char>) -> Result<
    Seq<Seq<char>>,
    ErrorView,
>
    decreases n,
{
    if n <= 0 {
        Ok(Seq::empty())
    } else {
        match column_args(args, n - 1, usage) {
            Err(e) => Err(e),
            Ok(cs) => match column_arg(args[n - 1], usage) {
                Err(e) => Err(e),
                Ok(c) => Ok(cs.push(c)),
            },
        }
    }
}

/// A third, numeric argument within `max`, or `fallback` where it is absent.
pub open spec fn number_arg(
    args: Seq<Expr>,
    fallback: u64,
    max: u64,
    usage: Seq<char>,
    too_large: Seq<char>,
) -> Result<u64, ErrorView> {
    if args.len() == 2 {
        Ok(fallback)
    } else {
        match uint_arg(args[2], usage) {
            Err(e) => Err(e),
            Ok(n) => if n > max {
                Err(ErrorView::Type(too_large))
            } else {
                Ok(n)
            },
        }
    }
}

/// The query that one search predicate stands for, or what is wrong with its
/// arguments.
pub open spec fn func_query(name: Seq<char>, args: Vec<Expr>) -> Result<QueryView, ErrorView>
    decreases args, 2int,
{
    let n = args@.len();
    if name == "match"@ {
        if n != 2 {
            Err(ErrorView::Type("MATCH(column, 'text') takes exactly two arguments"@))
        } else {
            match column_and_text(args@[0], args@[1], "MATCH(column, 'text')"@) {
                Err(e) => Err(e),
                Ok((c, t)) => Ok(QueryView::Match { field: Some(c), text: t }),
            }
        }
    } else if name == "match_phrase"@ {
        if n != 2 && n != 3 {
            Err(
                ErrorView::Type(
                    "MATCH_PHRASE(column, 'text' [, slop]) takes two or three arguments"@,
                ),
            )
        } else {
            match number_arg(
                args@,
                0,
                u32::MAX as u64,
                "MATCH_PHRASE slop"@,
                "MATCH_PHRASE slop is too large"@,
            ) {
                Err(e) => Err(e),
                Ok(slop) => match column_and_text(
                    args@[0],
                    args@[1],
                    "MATCH_PHRASE(column, 'text')"@,
                ) {
                    Err(e) => Err(e),
                    Ok((c, t)) => Ok(
                        QueryView::Phrase { field: Some(c), text: t, slop: slop as u32 },
                    ),
                },
            }
        }
    } else if name == "fuzzy"@ {
        if n != 2 && n != 3 {
            Err(ErrorView::Type("FUZZY(column, 'text' [, distance]) takes two or three arguments"@))
        } else {
            match number_arg(
                args@,
                1,
                u8::MAX as u64,
                "FUZZY distance"@,
                "FUZZY distance is too large"@,
            ) {
                Err(e) => Err(e),
                Ok(d) => match column_and_text(args@[0], args@[1], "FUZZY(column, 'text')"@) {
                    Err(e) => Err(e),
                    Ok((c, t)) => Ok(
                        QueryView::Fuzzy { field: Some(c), text: t, distance: d as u8 },
                    ),
                },
            }
        }
    } else if name == "match_prefix"@ {
        if n != 2 {
            Err(ErrorView::Type("MATCH_PREFIX(column, 'prefix') takes exactly two arguments"@))
        } else {
            match column_and_text(args@[0], args@[1], "MATCH_PREFIX(column, 'prefix')"@) {
                Err(e) => Err(e),
                Ok((c, t)) => Ok(QueryView::Prefix { field: Some(c), text: t }),
            }
        }
    } else if name == "wildcard"@ {
        if n != 2 {
            Err(ErrorView::Type("WILDCARD(column, 'pattern') takes exactly two arguments"@))
        } else {
            match column_and_text(args@[0], args@[1], "WILDCARD(column, 'pattern')"@) {
                Err(e) => Err(e),
                Ok((c, t)) => Ok(QueryView::Wildcard { field: Some(c), pattern: t }),
            }
        }
    } else if name == "regexp"@ {
        if n != 2 {
            Err(ErrorView::Type("REGEXP(column, 'pattern') takes exactly two arguments"@))
        } else {
            match column_and_text(args@[0], args@[1], "REGEXP(column, 'pattern')"@) {
                Err(e) => Err(e),
                Ok((c, t)) => Ok(QueryView::Regexp { field: Some(c), pattern: t }),
            }
        }
    } else if name == "more_like_this"@ {
        if n != 2 {
            Err(ErrorView::Type("MORE_LIKE_THIS(column, 'text') takes exactly two arguments"@))
        } else {
            match column_and_text(args@[0], args@[1], "MORE_LIKE_THIS(column, 'text')"@) {
                Err(e) => Err(e),
                Ok((c, t)) => Ok(QueryView::MoreLikeThis { field: Some(c), text: t }),
            }
        }
    } else if name == "search"@ {
        if n != 1 {
            Err(ErrorView::Type("SEARCH('query') takes exactly one string argument"@))
        } else {
            match text_arg(args@[0], "SEARCH('query')"@) {
                Err(e) => Err(e),
                Ok(t) => Ok(QueryView::QueryString(t)),
            }
        }
    } else if name == "match_cross"@ || name == "match_best"@ {
        if n == 0 {
            Err(
                ErrorView::Type(
                    "MATCH_CROSS(column, ..., 'text') takes columns then the query text"@,
                ),
            )
        } else if n < 3 {
            Err(
                ErrorView::Type(
                    "MATCH_CROSS(column, ..., 'text') needs at least two columns (use MATCH() for one)"@,
                ),
            )
        } else {
            match column_args(args@, n - 1, "MATCH_CROSS(column, ..., 'text')"@) {
                Err(e) => Err(e),
                Ok(fields) => match text_arg(args@[n - 1], "MATCH_CROSS(column, ..., 'text')"@) {
                    Err(e) => Err(e),
                    Ok(text) => Ok(
                        QueryView::MultiMatch { fields, text, term_centric: name == "match_cross"@ },
                    ),
                },
            }
        }
    } else if name == "boosted"@ {
        if n == 0 {
            Err(
                ErrorView::Type(
                    "BOOSTED(required, optional...) takes at least one search predicate"@,
                ),
            )
        } else if n == 1 {
            Err(
                ErrorView::Type(
                    "BOOSTED(required, optional...) needs at least one optional predicate (without one it is just the required predicate)"@,
                ),
            )
        } else if exists|i: int| 0 <= i < n && !pure_search(#[trigger] args@[i]) {
            Err(
                ErrorView::Type(
                    "BOOSTED() arguments must be search predicates (MATCH()-family functions composed with AND/OR/NOT)"@,
                ),
            )
        } else {
            match expr_query(args@[0]) {
                Err(e) => Err(e),
                Ok(required) => match queries_from(args, n as int) {
                    Err(e) => Err(e),
                    Ok(optional) => Ok(
                        QueryView::Boosted { required: Box::new(required), optional },
                    ),
                },
            }
        }
    } else {
        Err(ErrorView::Type("unknown search function "@ + name + "()"@))
    }
}

/// The queries of the arguments from the second up to the `n`-th, the first
/// error first.
pub open spec fn queries_from(args: Vec<Expr>, n: int) -> Result<Seq<QueryView>, ErrorView>
    decreases args, 1int, n,
{
    if n <= 1 || n > args@.len() {
        Ok(Seq::empty())
    } else {
        match queries_from(args, n - 1) {
            Err(e) => Err(e),
            Ok(qs) => match expr_query(args@[n - 1]) {
                Err(e) => Err(e),
                Ok(q) => Ok(qs.push(q)),
            },
        }
    }
}

/// The query that a pure search expression stands for.
pub open spec fn expr_query(e: Expr) -> Result<QueryView, ErrorView>
    decreases e, 0int,
{
    match e {
        Expr::Func { name, args } => func_query(name@, args),
        Expr::Binary { op, left, right } => match expr_query(*left) {
            Err(x) => Err(x),
            Ok(l) => match expr_query(*right) {
                Err(x) => Err(x),
                Ok(r) => Ok(
                    if op == BinaryOp::And {
                        QueryView::All(seq![l, r])
                    } else {
                        QueryView::Any(seq![l, r])
                    },
                ),
            },
        },
        Expr::Unary { expr, .. } => match expr_query(*expr) {
            Err(x) => Err(x),
            Ok(q) => Ok(QueryView::Not(Box::new(q))),
        },
        _ => Err(ErrorView::Type(Seq::empty())),
    }
}

fn take_column(e: &Expr, usage: &str) -> (r: Result<String, EngineError>)
    ensures
        match r {
            Ok(c) => column_arg(*e, usage@) == Ok::<Seq<char>, ErrorView>(c@),
            Err(x) => column_arg(*e, usage@) == Err::<Seq<char>, ErrorView>(x@),
        },
{
    match e {
        Expr::Column(path) => Ok(path.clone()),
        _ => Err(EngineError::Type(cat(usage, " takes a column as its first argument"))),
    }
}

fn take_text(e: &Expr, usage: &str) -> (r: Result<String, EngineError>)
    ensures
        match r {
            Ok(t) => text_arg(*e, usage@) == Ok::<Seq<char>, ErrorView>(t@),
            Err(x) => text_arg(*e, usage@) == Err::<Seq<char>, ErrorView>(x@),
        },
{
    match e {
        Expr::Literal(Value::String(s)) => Ok(s.clone()),
        _ => Err(EngineError::Type(cat(usage, " takes a string literal as its query text"))),
    }
}

fn take_column_and_text(col: &Expr, text: &Expr, usage: &str) -> (r: Result<
    (String, String),
    EngineError,
>)
    ensures
        match r {
            Ok((c, t)) => column_and_text(*col, *text, usage@) == Ok::<
                (Seq<char>, Seq<char>),
                ErrorView,
            >((c@, t@)),
            Err(x) => column_and_text(*col, *text, usage@) == Err::<
                (Seq<char>, Seq<char>),
                ErrorView,
            >(x@),
        },
{
    match take_column(col, usage) {
        Err(e) => Err(e),
        Ok(c) => match take_text(text, usage) {
            Err(e) => Err(e),
            Ok(t) => Ok((c, t)),
        },
    }
}

fn take_number(args: &Vec<Expr>, fallback: u64, max: u64, usage: &str, too_large: &str) -> (r: Result<
    u64,
    EngineError,
>)
    requires
        args@.len() == 2 || args@.len() == 3,
        fallback <= max,
    ensures
        verdict(r) == number_arg(args@, fallback, max, usage@, too_large@),
        r matches Ok(n) ==> n <= max,
{
    if args.len() == 2 {
        return Ok(fallback);
    }
    let n: u64 = match &args[2] {
        Expr::Literal(Value::Int(i)) => {
            if *i < 0 {
                return Err(
                    EngineError::Type(cat(usage, " must be a non-negative integer literal")),
                );
            }
            *i as u64
        },
        _ => {
            return Err(EngineError::Type(cat(usage, " must be a non-negative integer literal")));
        },
    };
    if n > max {
        return Err(type_error(too_large));
    }
    Ok(n)
}

fn take_columns(args: &Vec<Expr>, n: usize, usage: &str) -> (r: Result<Vec<String>, EngineError>)
    requires
        n <= args@.len(),
    ensures
        match r {
            Ok(cs) => column_args(args@, n as int, usage@) == Ok::<Seq<Seq<char>>, ErrorView>(
                views(cs@),
            ),
            Err(x) => column_args(args@, n as int, usage@) == Err::<Seq<Seq<char>>, ErrorView>(x@),
        },
{
    let mut out: Vec<String> = Vec::new();
    let mut i: usize = 0;
    proof {
        assert(views(out@) =~= Seq::<Seq<char>>::empty());
    }
    while i < n
        invariant
            i <= n,
            n <= args@.len(),
            column_args(args@, i as int, usage@) == Ok::<Seq<Seq<char>>, ErrorView>(views(out@)),
        decreases n - i,
    {
        match take_column(&args[i], usage) {
            Err(e) => {
                proof {
                    lemma_column_args_error(args@, i + 1, n as int, usage@);
                }
                return Err(e);
            },
            Ok(c) => {
                let ghost before = views(out@);
                let ghost cv = c@;
                out.push(c);
                proof {
                    assert(views(out@) =~= before.push(cv));
                }
            },
        }
        i = i + 1;
    }
    Ok(out)
}

proof fn lemma_column_args_error(args: Seq<Expr>, k: int, n: int, usage: Seq<char>)
    requires
        0 <= k <= n,
        column_args(args, k, usage) is Err,
    ensures
        column_args(args, n, usage) == column_args(args, k, usage),
    decreases n - k,
{
    if k < n {
        lemma_column_args_error(args, k, n - 1, usage);
    }
}

/// Whether a query is what an expression stands for.
pub open spec fn query_result(r: Result<SearchQuery, EngineError>) -> Result<QueryView, ErrorView> {
    match r {
        Ok(q) => Ok(query_view(q)),
        Err(e) => Err(e@),
    }
}

/// Converts one `MATCH()`-family call into a query.
pub fn search_query_from_func(name: &str, args: &Vec<Expr>) -> (r: Result<
    SearchQuery,
    EngineError,
>)
    ensures
        query_result(r) == func_query(name@, *args),
    decreases *args, 2int,
{
    let n: usize = args.len();
    if str_eq(name, "match") {
        if n != 2 {
            return Err(type_error("MATCH(column, 'text') takes exactly two arguments"));
        }
        return match take_column_and_text(&args[0], &args[1], "MATCH(column, 'text')") {
            Err(e) => Err(e),
            Ok((c, t)) => Ok(SearchQuery::Match { field: Some(c), text: t }),
        };
    }
    if str_eq(name, "match_phrase") {
        if n != 2 && n != 3 {
            return Err(
                type_error("MATCH_PHRASE(column, 'text' [, slop]) takes two or three arguments"),
            );
        }
        let slop: u64 = match take_number(
            args,
            0,
            u32::MAX as u64,
            "MATCH_PHRASE slop",
            "MATCH_PHRASE slop is too large",
        ) {
            Err(e) => {
                return Err(e);
            },
            Ok(s) => s,
        };
        return match take_column_and_text(&args[0], &args[1], "MATCH_PHRASE(column, 'text')") {
            Err(e) => Err(e),
            Ok((c, t)) => Ok(SearchQuery::Phrase { field: Some(c), text: t, slop: slop as u32 }),
        };
    }
    if str_eq(name, "fuzzy") {
        if n != 2 && n != 3 {
            return Err(
                type_error("FUZZY(column, 'text' [, distance]) takes two or three arguments"),
            );
        }
        let distance: u64 = match take_number(
            args,
            1,
            u8::MAX as u64,
            "FUZZY distance",
            "FUZZY distance is too large",
        ) {
            Err(e) => {
                return Err(e);
            },
            Ok(d) => d,
        };
        return match take_column_and_text(&args[0], &args[1], "FUZZY(column, 'text')") {
            Err(e) => Err(e),
            Ok((c, t)) => Ok(
                SearchQuery::Fuzzy { field: Some(c), text: t, distance: distance as u8 },
            ),
        };
    }
    if str_eq(name, "match_prefix") {
        if n != 2 {
            return Err(type_error("MATCH_PREFIX(column, 'prefix') takes exactly two arguments"));
        }
        return match take_column_and_text(&args[0], &args[1], "MATCH_PREFIX(column, 'prefix')") {
            Err(e) => Err(e),
            Ok((c, t)) => Ok(SearchQuery::Prefix { field: Some(c), text: t }),
        };
    }
    if str_eq(name, "wildcard") {
        if n != 2 {
            return Err(type_error("WILDCARD(column, 'pattern') takes exactly two arguments"));
        }
        return match take_column_and_text(&args[0], &args[1], "WILDCARD(column, 'pattern')") {
            Err(e) => Err(e),
            Ok((c, t)) => Ok(SearchQuery::Wildcard { field: Some(c), pattern: t }),
        };
    }
    if str_eq(name, "regexp") {
        if n != 2 {
            return Err(type_error("REGEXP(column, 'pattern') takes exactly two arguments"));
        }
        return match take_column_and_text(&args[0], &args[1], "REGEXP(column, 'pattern')") {
            Err(e) => Err(e),
            Ok((c, t)) => Ok(SearchQuery::Regexp { field: Some(c), pattern: t }),
        };
    }
    if str_eq(name, "more_like_this") {
        if n != 2 {
            return Err(type_error("MORE_LIKE_THIS(column, 'text') takes exactly two arguments"));
        }
        return match take_column_and_text(&args[0], &args[1], "MORE_LIKE_THIS(column, 'text')") {
            Err(e) => Err(e),
            Ok((c, t)) => Ok(SearchQuery::MoreLikeThis { field: Some(c), text: t }),
        };
    }
    if str_eq(name, "search") {
        if n != 1 {
            return Err(type_error("SEARCH('query') takes exactly one string argument"));
        }
        return match take_text(&args[0], "SEARCH('query')") {
            Err(e) => Err(e),
            Ok(t) => Ok(SearchQuery::QueryString(t)),
        };
    }
    if str_eq(name, "match_cross") || str_eq(name, "match_best") {
        if n == 0 {
            return Err(
                type_error("MATCH_CROSS(column, ..., 'text') takes columns then the query text"),
            );
        }
        if n < 3 {
            return Err(
                type_error(
                    "MATCH_CROSS(column, ..., 'text') needs at least two columns (use MATCH() for one)",
                ),
            );
        }
        let fields = match take_columns(args, n - 1, "MATCH_CROSS(column, ..., 'text')") {
            Err(e) => {
                return Err(e);
            },
            Ok(cs) => cs,
        };
        return match take_text(&args[n - 1], "MATCH_CROSS(column, ..., 'text')") {
            Err(e) => Err(e),
            Ok(text) => Ok(
                SearchQuery::MultiMatch { fields, text, term_centric: str_eq(name, "match_cross") },
            ),
        };
    }
    if str_eq(name, "boosted") {
        if n == 0 {
            return Err(
                type_error("BOOSTED(required, optional...) takes at least one search predicate"),
            );
        }
        if n == 1 {
            return Err(
                type_error(
                    "BOOSTED(required, optional...) needs at least one optional predicate (without one it is just the required predicate)",
                ),
            );
        }
        if !all_pure_search(args) {
            return Err(
                type_error(
                    "BOOSTED() arguments must be search predicates (MATCH()-family functions composed with AND/OR/NOT)",
                ),
            );
        }
        let required = match to_search_query(&args[0]) {
            Err(e) => {
                return Err(e);
            },
            Ok(q) => q,
        };
        return match queries_to(args) {
            Err(e) => Err(e),
            Ok(optional) => {
                let q = SearchQuery::Boosted { required: Box::new(required), optional };
                proof {
                    if let QueryView::Boosted { optional: s, .. } = query_view(q) {
                        assert(s =~= query_views(optional@));
                    }
                }
                Ok(q)
            },
        };
    }
    Err(EngineError::Type(cat3("unknown search function ", name, "()")))
}

/// Whether every argument is a pure search expression.
fn all_pure_search(args: &Vec<Expr>) -> (r: bool)
    ensures
        r == forall|i: int| 0 <= i < args@.len() ==> pure_search(#[trigger] args@[i]),
{
    let mut i: usize = 0;
    while i < args.len()
        invariant
            i <= args@.len(),
            forall|k: int| 0 <= k < i ==> pure_search(#[trigger] args@[k]),
        decreases args@.len() - i,
    {
        if !is_pure_search(&args[i]) {
            return false;
        }
        i = i + 1;
    }
    true
}

/// The queries of the arguments behind the first.
fn queries_to(args: &Vec<Expr>) -> (r: Result<Vec<SearchQuery>, EngineError>)
    requires
        args@.len() > 0,
        forall|i: int| 0 <= i < args@.len() ==> pure_search(#[trigger] args@[i]),
    ensures
        match r {
            Ok(qs) => queries_from(*args, args@.len() as int) == Ok::<Seq<QueryView>, ErrorView>(
                query_views(qs@),
            ),
            Err(x) => queries_from(*args, args@.len() as int) == Err::<Seq<QueryView>, ErrorView>(
                x@,
            ),
        },
    decreases *args, 1int,
{
    let mut out: Vec<SearchQuery> = Vec::new();
    let mut i: usize = 1;
    proof {
        assert(query_views(out@) =~= Seq::<QueryView>::empty());
    }
    while i < args.len()
        invariant
            1 <= i <= args@.len(),
            forall|k: int| 0 <= k < args@.len() ==> pure_search(#[trigger] args@[k]),
            queries_from(*args, i as int) == Ok::<Seq<QueryView>, ErrorView>(query_views(out@)),
        decreases args@.len() - i,
    {
        match to_search_query(&args[i]) {
            Err(e) => {
                proof {
                    lemma_queries_error(*args, i + 1, args@.len() as int);
                }
                return Err(e);
            },
            Ok(q) => {
                let ghost before = query_views(out@);
                let ghost qv = query_view(q);
                out.push(q);
                proof {
                    assert(query_views(out@) =~= before.push(qv));
                }
            },
        }
        i = i + 1;
    }
    Ok(out)
}

proof fn lemma_queries_error(args: Vec<Expr>, k: int, n: int)
    requires
        1 <= k <= n <= args@.len(),
        queries_from(args, k) is Err,
    ensures
        queries_from(args, n) == queries_from(args, k),
    decreases n - k,
{
    if k < n {
        lemma_queries_error(args, k, n - 1);
    }
}

/// Converts a pure search expression into a query.
pub fn to_search_query(e: &Expr) -> (r: Result<SearchQuery, EngineError>)
    requires
        pure_search(*e),
    ensures
        query_result(r) == expr_query(*e),
    decreases *e, 0int,
{
    match e {
        Expr::Func { name, args } => search_query_from_func(name.as_str(), args),
        Expr::Binary { op, left, right } => {
            let l = match to_search_query(left) {
                Err(x) => {
                    return Err(x);
                },
                Ok(q) => q,
            };
            let r = match to_search_query(right) {
                Err(x) => {
                    return Err(x);
                },
                Ok(q) => q,
            };
            let ghost lv = query_view(l);
            let ghost rv = query_view(r);
            let mut subs: Vec<SearchQuery> = Vec::new();
            subs.push(l);
            subs.push(r);
            let ghost sv = subs;
            let q = if *op == BinaryOp::And {
                SearchQuery::All(subs)
            } else {
                SearchQuery::Any(subs)
            };
            proof {
                match query_view(q) {
                    QueryView::All(s) => {
                        assert(s =~= seq![lv, rv]);
                    },
                    QueryView::Any(s) => {
                        assert(s =~= seq![lv, rv]);
                    },
                    _ => {},
                }
            }
            Ok(q)
        },
        Expr::Unary { expr, .. } => match to_search_query(expr) {
            Err(x) => Err(x),
            Ok(q) => Ok(SearchQuery::Not(Box::new(q))),
        },
        _ => Err(type_error("")),
    }
}

/// The conjuncts of an expression.
pub open spec fn conjuncts(e: Expr) -> Seq<Expr>
    decreases e,
{
    match e {
        Expr::Binary { op, left, right } => if op == BinaryOp::And {
            conjuncts(*left) + conjuncts(*right)
        } else {
            seq![e]
        },
        _ => seq![e],
    }
}

/// The conjuncts of an expression, in order.
pub fn collect_conjuncts<'a>(e: &'a Expr, out: &mut Vec<&'a Expr>)
    ensures
        crate::constraints::pointees(final(out)@) == crate::constraints::pointees(old(out)@)
            + conjuncts(*e),
    decreases *e,
{
    let ghost base = crate::constraints::pointees(out@);
    if let Expr::Binary { op, left, right } = e {
        if *op == BinaryOp::And {
            collect_conjuncts(left, out);
            collect_conjuncts(right, out);
            proof {
                assert((base + conjuncts(**left)) + conjuncts(**right) =~= base + (conjuncts(
                    **left,
                ) + conjuncts(**right)));
            }
            return;
        }
    }
    out.push(e);
    proof {
        assert(crate::constraints::pointees(out@) =~= base + seq![*e]);
    }
}

/// A filter split in two: what the search index serves, and the conjuncts that
/// are left to filter by.
pub struct SplitView {
    pub queries: Seq<QueryView>,
    pub residual: Seq<Expr>,
}

/// The error for search predicates mixed with others under `OR` or `NOT`.
pub open spec fn mixed_error() -> ErrorView {
    ErrorView::Unsupported(
        "search predicates compose with AND/OR/NOT among themselves; mixing them with ordinary conditions under OR/NOT is not supported"@,
    )
}

/// A run of conjuncts split, the first error first.
pub open spec fn split_conjuncts(es: Seq<Expr>) -> Result<SplitView, ErrorView>
    decreases es.len(),
{
    if es.len() == 0 {
        Ok(SplitView { queries: Seq::empty(), residual: Seq::empty() })
    } else {
        match split_conjuncts(es.drop_last()) {
            Err(e) => Err(e),
            Ok(s) => {
                let leaf = es.last();
                if pure_search(leaf) {
                    match expr_query(leaf) {
                        Err(e) => Err(e),
                        Ok(q) => Ok(SplitView { queries: s.queries.push(q), ..s }),
                    }
                } else if has_func(leaf, FuncSort::Search) {
                    Err(mixed_error())
                } else {
                    Ok(SplitView { residual: s.residual.push(leaf), ..s })
                }
            },
        }
    }
}

/// An optional filter split.
pub open spec fn split_filter(f: Option<Expr>) -> Result<SplitView, ErrorView> {
    match f {
        None => Ok(SplitView { queries: Seq::empty(), residual: Seq::empty() }),
        Some(e) => split_conjuncts(conjuncts(e)),
    }
}

/// A split filter: the search queries and the ordinary conjuncts.
pub struct SplitFilter<'a> {
    pub queries: Vec<SearchQuery>,
    pub residual: Vec<&'a Expr>,
}

/// What a split filter holds.
pub open spec fn split_view(s: SplitFilter<'_>) -> SplitView {
    SplitView {
        queries: query_views(s.queries@),
        residual: crate::constraints::pointees(s.residual@),
    }
}

proof fn lemma_split_error(es: Seq<Expr>, k: int)
    requires
        0 <= k <= es.len(),
        split_conjuncts(es.take(k)) is Err,
    ensures
        split_conjuncts(es) == split_conjuncts(es.take(k)),
    decreases es.len() - k,
{
    if k == es.len() {
        assert(es.take(k) =~= es);
    } else {
        assert(es.take(k + 1).drop_last() =~= es.take(k));
        lemma_split_error(es, k + 1);
    }
}

/// Splits a `WHERE` clause into search predicates and the residual conjuncts.
pub fn split_search_filter<'a>(filter: &'a Option<Expr>) -> (r: Result<
    SplitFilter<'a>,
    EngineError,
>)
    ensures
        match r {
            Ok(s) => split_filter(*filter) == Ok::<SplitView, ErrorView>(split_view(s)),
            Err(e) => split_filter(*filter) == Err::<SplitView, ErrorView>(e@),
        },
{
    let mut out = SplitFilter { queries: Vec::new(), residual: Vec::new() };
    proof {
        assert(query_views(out.queries@) =~= Seq::<QueryView>::empty());
        assert(crate::constraints::pointees(out.residual@) =~= Seq::<Expr>::empty());
    }
    let expr = match filter {
        None => {
            return Ok(out);
        },
        Some(e) => e,
    };
    let mut leaves: Vec<&'a Expr> = Vec::new();
    collect_conjuncts(expr, &mut leaves);
    let ghost ls = conjuncts(*expr);
    proof {
        assert(crate::constraints::pointees(leaves@) =~= ls);
        assert(ls.take(0) =~= Seq::<Expr>::empty());
    }
    let mut i: usize = 0;
    while i < leaves.len()
        invariant
            i <= leaves@.len(),
            crate::constraints::pointees(leaves@) == ls,
            leaves@.len() == ls.len(),
            split_conjuncts(ls.take(i as int)) == Ok::<SplitView, ErrorView>(split_view(out)),
            split_filter(*filter) == split_conjuncts(ls),
        decreases leaves@.len() - i,
    {
        let leaf = leaves[i];
        proof {
            assert(ls[i as int] == *leaf);
            assert(ls.take(i + 1).drop_last() =~= ls.take(i as int));
            assert(ls.take(i + 1).last() == *leaf);
        }
        if is_pure_search(leaf) {
            match to_search_query(leaf) {
                Err(e) => {
                    proof {
                        lemma_split_error(ls, i + 1);
                    }
                    return Err(e);
                },
                Ok(q) => {
                    let ghost before = query_views(out.queries@);
                    let ghost qv = query_view(q);
                    out.queries.push(q);
                    proof {
                        assert(query_views(out.queries@) =~= before.push(qv));
                    }
                },
            }
        } else if expr_has_func(leaf, FuncSort::Search) {
            proof {
                lemma_split_error(ls, i + 1);
            }
            return Err(
                unsupported(
                    "search predicates compose with AND/OR/NOT among themselves; mixing them with ordinary conditions under OR/NOT is not supported",
                ),
            );
        } else {
            let ghost before = crate::constraints::pointees(out.residual@);
            out.residual.push(leaf);
            proof {
                assert(crate::constraints::pointees(out.residual@) =~= before.push(*leaf));
            }
        }
        i = i + 1;
    }
    proof {
        assert(ls.take(ls.len() as int) =~= ls);
    }
    Ok(out)
}

/// The one query that a list of queries comes to: none, the only one, or all
/// of them together.
pub open spec fn combined(qs: Seq<QueryView>) -> Option<QueryView> {
    if qs.len() == 0 {
        None
    } else if qs.len() == 1 {
        Some(qs[0])
    } else {
        Some(QueryView::All(qs))
    }
}

/// An optional query by what it is.
pub open spec fn opt_query(q: Option<SearchQuery>) -> Option<QueryView> {
    match q {
        Some(x) => Some(query_view(x)),
        None => None,
    }
}

/// The one query that a list of queries comes to.
pub fn combine_queries(queries: Vec<SearchQuery>) -> (r: Option<SearchQuery>)
    ensures
        opt_query(r) == combined(query_views(queries@)),
{
    let ghost qs = query_views(queries@);
    let mut list = queries;
    if list.len() == 0 {
        return None;
    }
    if list.len() == 1 {
        let q = list.remove(0);
        proof {
            assert(qs[0] == query_view(q));
        }
        return Some(q);
    }
    let q = SearchQuery::All(list);
    proof {
        if let QueryView::All(s) = query_view(q) {
            assert(s =~= qs);
        }
    }
    Some(q)
}

/// The combined search query of a `WHERE` clause: nothing where it has no
/// search predicate, an error where they cannot be pushed to the index.
pub fn filter_search_query(filter: &Option<Expr>) -> (r: Result<Option<SearchQuery>, EngineError>)
    ensures
        match r {
            Ok(q) => split_filter(*filter) matches Ok(s) && opt_query(q) == combined(s.queries),
            Err(e) => split_filter(*filter) == Err::<SplitView, ErrorView>(e@),
        },
{
    match split_search_filter(filter) {
        Err(e) => Err(e),
        Ok(s) => Ok(combine_queries(s.queries)),
    }
}

/// A list with a name added at its end unless it is there already.
pub open spec fn with_name(out: Seq<Seq<char>>, name: Seq<char>) -> Seq<Seq<char>> {
    if out.contains(name) {
        out
    } else {
        out.push(name)
    }
}

/// A list with several names added in turn.
pub open spec fn with_names(out: Seq<Seq<char>>, names: Seq<Seq<char>>) -> Seq<Seq<char>>
    decreases names.len(),
{
    if names.len() == 0 {
        out
    } else {
        with_name(with_names(out, names.drop_last()), names.last())
    }
}

/// The fields that a query targets, added to a list in first-seen order. The
/// fields of a query string resolve inside the index.
pub open spec fn fields_into(q: QueryView, out: Seq<Seq<char>>) -> Seq<Seq<char>>
    decreases q,
{
    match q {
        QueryView::Match { field, .. } => field_into(field, out),
        QueryView::Phrase { field, .. } => field_into(field, out),
        QueryView::Fuzzy { field, .. } => field_into(field, out),
        QueryView::Prefix { field, .. } => field_into(field, out),
        QueryView::Wildcard { field, .. } => field_into(field, out),
        QueryView::Regexp { field, .. } => field_into(field, out),
        QueryView::MoreLikeThis { field, .. } => field_into(field, out),
        QueryView::QueryString(_) => out,
        QueryView::All(subs) => all_fields_into(subs, subs.len() as int, out),
        QueryView::Any(subs) => all_fields_into(subs, subs.len() as int, out),
        QueryView::Not(sub) => fields_into(*sub, out),
        QueryView::MultiMatch { fields, .. } => with_names(out, fields),
        QueryView::Boosted { required, optional } => all_fields_into(
            optional,
            optional.len() as int,
            fields_into(*required, out),
        ),
    }
}

/// An optional field added to a list.
pub open spec fn field_into(field: Option<Seq<char>>, out: Seq<Seq<char>>) -> Seq<Seq<char>> {
    match field {
        Some(f) => with_name(out, f),
        None => out,
    }
}

/// The fields of the first `n` queries added to a list in turn.
pub open spec fn all_fields_into(subs: Seq<QueryView>, n: int, out: Seq<Seq<char>>) -> Seq<
    Seq<char>,
>
    decreases subs, n,
{
    if n <= 0 || n > subs.len() {
        out
    } else {
        fields_into(subs[n - 1], all_fields_into(subs, n - 1, out))
    }
}

fn add_once(out: &mut Vec<String>, name: &String)
    ensures
        views(final(out)@) == with_name(views(old(out)@), name@),
{
    if !contains_name(out, name.as_str()) {
        let ghost before = views(out@);
        out.push(name.clone());
        proof {
            assert(views(out@) =~= before.push(name@));
        }
    }
}

fn add_field(out: &mut Vec<String>, field: &Option<String>)
    ensures
        views(final(out)@) == field_into(field_view(*field), views(old(out)@)),
{
    if let Some(f) = field {
        add_once(out, f);
    }
}

/// Collects the field names that a query explicitly targets.
pub fn collect_search_fields(query: &SearchQuery, out: &mut Vec<String>)
    ensures
        views(final(out)@) == fields_into(query_view(*query), views(old(out)@)),
    decreases *query,
{
    match query {
        SearchQuery::Match { field, .. } => add_field(out, field),
        SearchQuery::Phrase { field, .. } => add_field(out, field),
        SearchQuery::Fuzzy { field, .. } => add_field(out, field),
        SearchQuery::Prefix { field, .. } => add_field(out, field),
        SearchQuery::Wildcard { field, .. } => add_field(out, field),
        SearchQuery::Regexp { field, .. } => add_field(out, field),
        SearchQuery::MoreLikeThis { field, .. } => add_field(out, field),
        SearchQuery::QueryString(_) => {},
        SearchQuery::All(subs) => {
            collect_all_fields(subs, out);
            proof {
                if let QueryView::All(s) = query_view(*query) {
                    assert(s =~= query_views(subs@));
                }
            }
        },
        SearchQuery::Any(subs) => {
            collect_all_fields(subs, out);
            proof {
                if let QueryView::Any(s) = query_view(*query) {
                    assert(s =~= query_views(subs@));
                }
            }
        },
        SearchQuery::Not(sub) => collect_search_fields(sub, out),
        SearchQuery::MultiMatch { fields, .. } => {
            let ghost base = views(out@);
            let ghost fs = views(fields@);
            let mut i: usize = 0;
            proof {
                assert(fs.take(0) =~= Seq::<Seq<char>>::empty());
            }
            while i < fields.len()
                invariant
                    i <= fields@.len(),
                    fs == views(fields@),
                    views(out@) == with_names(base, fs.take(i as int)),
                decreases fields@.len() - i,
            {
                add_once(out, &fields[i]);
                proof {
                    assert(fs.take(i + 1).drop_last() =~= fs.take(i as int));
                    assert(fs.take(i + 1).last() == fs[i as int]);
                }
                i = i + 1;
            }
            proof {
                assert(fs.take(fs.len() as int) =~= fs);
            }
        },
        SearchQuery::Boosted { required, optional } => {
            collect_search_fields(required, out);
            collect_all_fields(optional, out);
            proof {
                if let QueryView::Boosted { optional: s, .. } = query_view(*query) {
                    assert(s =~= query_views(optional@));
                }
            }
        },
    }
}

fn collect_all_fields(subs: &Vec<SearchQuery>, out: &mut Vec<String>)
    ensures
        views(final(out)@) == all_fields_into(
            query_views(subs@),
            subs@.len() as int,
            views(old(out)@),
        ),
    decreases *subs,
{
    let ghost base = views(out@);
    let ghost qs = query_views(subs@);
    let mut i: usize = 0;
    while i < subs.len()
        invariant
            i <= subs@.len(),
            qs == query_views(subs@),
            views(out@) == all_fields_into(qs, i as int, base),
        decreases subs@.len() - i,
    {
        collect_search_fields(&subs[i], out);
        i = i + 1;
    }
}

/// The positive query texts of a search predicate, added to a list in
/// first-seen order. Negated legs and patterns carry no relevance text.
pub open spec fn texts_into(q: QueryView, out: Seq<Seq<char>>) -> Seq<Seq<char>>
    decreases q,
{
    match q {
        QueryView::Match { text, .. } => with_name(out, text),
        QueryView::Phrase { text, .. } => with_name(out, text),
        QueryView::Fuzzy { text, .. } => with_name(out, text),
        QueryView::Prefix { text, .. } => with_name(out, text),
        QueryView::MoreLikeThis { text, .. } => with_name(out, text),
        QueryView::MultiMatch { text, .. } => with_name(out, text),
        QueryView::QueryString(s) => with_name(out, s),
        QueryView::Wildcard { .. } => out,
        QueryView::Regexp { .. } => out,
        QueryView::Not(_) => out,
        QueryView::All(subs) => all_texts_into(subs, subs.len() as int, out),
        QueryView::Any(subs) => all_texts_into(subs, subs.len() as int, out),
        QueryView::Boosted { required, optional } => all_texts_into(
            optional,
            optional.len() as int,
            texts_into(*required, out),
        ),
    }
}

/// The texts of the first `n` queries added to a list in turn.
pub open spec fn all_texts_into(subs: Seq<QueryView>, n: int, out: Seq<Seq<char>>) -> Seq<Seq<char>>
    decreases subs, n,
{
    if n <= 0 || n > subs.len() {
        out
    } else {
        texts_into(subs[n - 1], all_texts_into(subs, n - 1, out))
    }
}

/// Collects the positive query texts of a search predicate.
pub fn collect_search_texts(query: &SearchQuery, out: &mut Vec<String>)
    ensures
        views(final(out)@) == texts_into(query_view(*query), views(old(out)@)),
    decreases *query,
{
    match query {
        SearchQuery::Match { text, .. } => add_once(out, text),
        SearchQuery::Phrase { text, .. } => add_once(out, text),
        SearchQuery::Fuzzy { text, .. } => add_once(out, text),
        SearchQuery::Prefix { text, .. } => add_once(out, text),
        SearchQuery::MoreLikeThis { text, .. } => add_once(out, text),
        SearchQuery::MultiMatch { text, .. } => add_once(out, text),
        SearchQuery::QueryString(s) => add_once(out, s),
        SearchQuery::Wildcard { .. } => {},
        SearchQuery::Regexp { .. } => {},
        SearchQuery::Not(_) => {},
        SearchQuery::All(subs) => {
            collect_all_texts(subs, out);
            proof {
                if let QueryView::All(s) = query_view(*query) {
                    assert(s =~= query_views(subs@));
                }
            }
        },
        SearchQuery::Any(subs) => {
            collect_all_texts(subs, out);
            proof {
                if let QueryView::Any(s) = query_view(*query) {
                    assert(s =~= query_views(subs@));
                }
            }
        },
        SearchQuery::Boosted { required, optional } => {
            collect_search_texts(required, out);
            collect_all_texts(optional, out);
            proof {
                if let QueryView::Boosted { optional: s, .. } = query_view(*query) {
                    assert(s =~= query_views(optional@));
                }
            }
        },
    }
}

fn collect_all_texts(subs: &Vec<SearchQuery>, out: &mut Vec<String>)
    ensures
        views(final(out)@) == all_texts_into(
            query_views(subs@),
            subs@.len() as int,
            views(old(out)@),
        ),
    decreases *subs,
{
    let ghost base = views(out@);
    let ghost qs = query_views(subs@);
    let mut i: usize = 0;
    while i < subs.len()
        invariant
            i <= subs@.len(),
            qs == query_views(subs@),
            views(out@) == all_texts_into(qs, i as int, base),
        decreases subs@.len() - i,
    {
        collect_search_texts(&subs[i], out);
        i = i + 1;
    }
}

/// Every conjunct of a filter is either searched for or filtered by
/// afterwards, and none of the latter holds a search predicate.
pub proof fn split_keeps_every_conjunct(es: Seq<Expr>)
    ensures
        split_conjuncts(es) matches Ok(s) ==> s.queries.len() + s.residual.len() == es.len(),
        split_conjuncts(es) matches Ok(s) ==> forall|i: int|
            0 <= i < s.residual.len() ==> !has_func(#[trigger] s.residual[i], FuncSort::Search),
    decreases es.len(),
{
    if es.len() > 0 {
        split_keeps_every_conjunct(es.drop_last());
    }
}

} // verus!
