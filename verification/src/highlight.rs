//! `HIGHLIGHT(...)` requests in a projection.

use vstd::prelude::*;

use crate::ast::AggArg;
use crate::ast::Expr;
use crate::ast::Select;
use crate::ast::SelectItem;
use crate::error::type_error;
use crate::error::EngineError;
use crate::error::ErrorView;
use crate::text::cat3;
use crate::text::str_eq;
use crate::value::Value;

verus! {

/// How a snippet is cut and marked.
pub struct HighlightOpts {
    pub max_chars: u64,
    pub pre_tag: String,
    pub post_tag: String,
    pub no_match_size: u64,
    pub fragments: u64,
}

pub struct OptsView {
    pub max_chars: u64,
    pub pre_tag: Seq<char>,
    pub post_tag: Seq<char>,
    pub no_match_size: u64,
    pub fragments: u64,
}

impl View for HighlightOpts {
    type V = OptsView;

    open spec fn view(&self) -> OptsView {
        OptsView {
            max_chars: self.max_chars,
            pre_tag: self.pre_tag@,
            post_tag: self.post_tag@,
            no_match_size: self.no_match_size,
            fragments: self.fragments,
        }
    }
}

/// One request: the column and its options.
pub type HighlightReq = (String, HighlightOpts);

/// One request, by its characters.
pub type ReqView = (Seq<char>, OptsView);

/// A list of requests by their characters.
pub open spec fn req_views(rs: Seq<HighlightReq>) -> Seq<ReqView> {
    rs.map_values(|r: HighlightReq| (r.0@, r.1@))
}

/// The integer that an argument is.
pub open spec fn int_arg(e: Expr) -> Option<i64> {
    match e {
        Expr::Literal(Value::Int(n)) => Some(n),
        _ => None,
    }
}

/// The string that an argument is.
pub open spec fn string_arg(e: Expr) -> Option<Seq<char>> {
    match e {
        Expr::Literal(Value::String(s)) => Some(s@),
        _ => None,
    }
}

/// What the arguments of a `HIGHLIGHT` ask for: a column, then an optional
/// positive fragment size, an optional pair of tags, an optional non-negative
/// size for rows without a match, and an optional count of one to ten
/// fragments. Nothing where they are anything else.
pub open spec fn highlight_of(args: Seq<Expr>, defaults: OptsView) -> Option<ReqView> {
    if args.len() == 0 {
        None
    } else {
        match args[0] {
            Expr::Column(col) => {
                let n = args.len();
                let size = int_arg(args[1]);
                let sized = n > 1 && (size matches Some(s) && s > 0);
                let tagged = n > 3 && string_arg(args[2]) is Some && string_arg(args[3]) is Some;
                let floored = n > 4 && (int_arg(args[4]) matches Some(s) && s >= 0);
                let split = n > 5 && (int_arg(args[5]) matches Some(s) && 1 <= s <= 10);
                if n == 1 {
                    Some((col@, defaults))
                } else if n == 2 && sized {
                    Some((col@, OptsView { max_chars: size->0 as u64, ..defaults }))
                } else if n == 4 && sized && tagged {
                    Some(
                        (
                            col@,
                            OptsView {
                                max_chars: size->0 as u64,
                                pre_tag: string_arg(args[2])->0,
                                post_tag: string_arg(args[3])->0,
                                ..defaults
                            },
                        ),
                    )
                } else if n == 5 && sized && tagged && floored {
                    Some(
                        (
                            col@,
                            OptsView {
                                max_chars: size->0 as u64,
                                pre_tag: string_arg(args[2])->0,
                                post_tag: string_arg(args[3])->0,
                                no_match_size: int_arg(args[4])->0 as u64,
                                ..defaults
                            },
                        ),
                    )
                } else if n == 6 && sized && tagged && floored && split {
                    Some(
                        (
                            col@,
                            OptsView {
                                max_chars: size->0 as u64,
                                pre_tag: string_arg(args[2])->0,
                                post_tag: string_arg(args[3])->0,
                                no_match_size: int_arg(args[4])->0 as u64,
                                fragments: int_arg(args[5])->0 as u64,
                            },
                        ),
                    )
                } else {
                    None
                }
            },
            _ => None,
        }
    }
}

/// The error for arguments that ask for nothing a highlight can do.
pub open spec fn highlight_error() -> ErrorView {
    ErrorView::Type(
        "HIGHLIGHT(column [, max_chars [, pre_tag, post_tag [, no_match_size [, fragments]]]]) takes a column, an optional positive fragment size, an optional pre/post tag string pair, an optional non-negative no-match size, and an optional fragment count (1-10; > 1 returns an array of fragments)"@,
    )
}

fn take_int(e: &Expr) -> (r: Option<i64>)
    ensures
        r == int_arg(*e),
{
    match e {
        Expr::Literal(Value::Int(n)) => Some(*n),
        _ => None,
    }
}

fn take_string(e: &Expr) -> (r: Option<String>)
    ensures
        r is Some <==> string_arg(*e) is Some,
        r matches Some(s) ==> string_arg(*e) == Some(s@),
{
    match e {
        Expr::Literal(Value::String(s)) => Some(s.clone()),
        _ => None,
    }
}

fn bad_highlight() -> (r: EngineError)
    ensures
        r@ == highlight_error(),
{
    type_error(
        "HIGHLIGHT(column [, max_chars [, pre_tag, post_tag [, no_match_size [, fragments]]]]) takes a column, an optional positive fragment size, an optional pre/post tag string pair, an optional non-negative no-match size, and an optional fragment count (1-10; > 1 returns an array of fragments)",
    )
}

/// Parses the arguments of a `HIGHLIGHT` call.
pub fn parse_highlight_args(args: &Vec<Expr>, defaults: &HighlightOpts) -> (r: Result<
    HighlightReq,
    EngineError,
>)
    ensures
        match r {
            Ok(req) => highlight_of(args@, defaults@) == Some((req.0@, req.1@)),
            Err(e) => highlight_of(args@, defaults@) is None && e@ == highlight_error(),
        },
{
    let n: usize = args.len();
    if n == 0 || n == 3 || n > 6 {
        return Err(bad_highlight());
    }
    let col = match &args[0] {
        Expr::Column(c) => c.clone(),
        _ => {
            return Err(bad_highlight());
        },
    };
    let mut opts = HighlightOpts {
        max_chars: defaults.max_chars,
        pre_tag: defaults.pre_tag.clone(),
        post_tag: defaults.post_tag.clone(),
        no_match_size: defaults.no_match_size,
        fragments: defaults.fragments,
    };
    if n >= 2 {
        match take_int(&args[1]) {
            Some(s) => {
                if s <= 0 {
                    return Err(bad_highlight());
                }
                opts.max_chars = s as u64;
            },
            None => {
                return Err(bad_highlight());
            },
        }
    }
    if n >= 4 {
        match (take_string(&args[2]), take_string(&args[3])) {
            (Some(pre), Some(post)) => {
                opts.pre_tag = pre;
                opts.post_tag = post;
            },
            _ => {
                return Err(bad_highlight());
            },
        }
    }
    if n >= 5 {
        match take_int(&args[4]) {
            Some(s) => {
                if s < 0 {
                    return Err(bad_highlight());
                }
                opts.no_match_size = s as u64;
            },
            None => {
                return Err(bad_highlight());
            },
        }
    }
    if n == 6 {
        match take_int(&args[5]) {
            Some(s) => {
                if s < 1 || s > 10 {
                    return Err(bad_highlight());
                }
                opts.fragments = s as u64;
            },
            None => {
                return Err(bad_highlight());
            },
        }
    }
    Ok((col, opts))
}

/// The place of the request for a column, or the number of requests.
pub open spec fn place_of_req(rs: Seq<ReqView>, col: Seq<char>) -> int
    decreases rs.len(),
{
    if rs.len() == 0 {
        0
    } else if rs[0].0 == col {
        0
    } else {
        1 + place_of_req(rs.drop_first(), col)
    }
}

/// The requests with one more: the same again changes nothing, different
/// options for a column conflict.
pub open spec fn with_req(rs: Seq<ReqView>, r: ReqView) -> Result<Seq<ReqView>, ErrorView> {
    let p = place_of_req(rs, r.0);
    if p < rs.len() {
        if rs[p].1 == r.1 {
            Ok(rs)
        } else {
            Err(
                ErrorView::Type(
                    "conflicting HIGHLIGHT options for column '"@ + r.0 + "'"@,
                ),
            )
        }
    } else {
        Ok(rs.push(r))
    }
}

/// Whether `e` is a `HIGHLIGHT` call.
pub open spec fn is_highlight(name: Seq<char>) -> bool {
    name == "highlight"@
}

/// The requests inside an expression added to a list, the first error first.
pub open spec fn requests_in(e: Expr, rs: Seq<ReqView>, d: OptsView) -> Result<
    Seq<ReqView>,
    ErrorView,
>
    decreases e,
{
    match e {
        Expr::Func { name, args } => if is_highlight(name@) {
            match highlight_of(args@, d) {
                None => Err(highlight_error()),
                Some(r) => with_req(rs, r),
            }
        } else {
            requests_in_list(args, args@.len() as int, rs, d)
        },
        Expr::Unary { expr, .. } => requests_in(*expr, rs, d),
        Expr::IsNull { expr, .. } => requests_in(*expr, rs, d),
        Expr::Binary { left, right, .. } => match requests_in(*left, rs, d) {
            Err(x) => Err(x),
            Ok(a) => requests_in(*right, a, d),
        },
        Expr::Aggregate { arg, .. } => match arg {
            AggArg::Expr(a) => requests_in(*a, rs, d),
            _ => Ok(rs),
        },
        Expr::InList { expr, list, .. } => match requests_in(*expr, rs, d) {
            Err(x) => Err(x),
            Ok(a) => requests_in_list(list, list@.len() as int, a, d),
        },
        Expr::Between { expr, lo, hi, .. } => match requests_in(*expr, rs, d) {
            Err(x) => Err(x),
            Ok(a) => match requests_in(*lo, a, d) {
                Err(x) => Err(x),
                Ok(b) => requests_in(*hi, b, d),
            },
        },
        Expr::Like { expr, pattern, .. } => match requests_in(*expr, rs, d) {
            Err(x) => Err(x),
            Ok(a) => requests_in(*pattern, a, d),
        },
        Expr::Literal(_) => Ok(rs),
        Expr::Column(_) => Ok(rs),
        Expr::Parameter(_) => Ok(rs),
    }
}

/// The requests inside the first `n` expressions of a list.
pub open spec fn requests_in_list(list: Vec<Expr>, n: int, rs: Seq<ReqView>, d: OptsView) -> Result<
    Seq<ReqView>,
    ErrorView,
>
    decreases list, n,
{
    if n <= 0 || n > list@.len() {
        Ok(rs)
    } else {
        match requests_in_list(list, n - 1, rs, d) {
            Err(x) => Err(x),
            Ok(a) => requests_in(list@[n - 1], a, d),
        }
    }
}

/// The requests of the first `n` items of a projection.
pub open spec fn requests_of(items: Seq<SelectItem>, n: int, d: OptsView) -> Result<
    Seq<ReqView>,
    ErrorView,
>
    decreases n,
{
    if n <= 0 || n > items.len() {
        Ok(Seq::empty())
    } else {
        match requests_of(items, n - 1, d) {
            Err(x) => Err(x),
            Ok(a) => match items[n - 1] {
                SelectItem::Expr { expr, .. } => requests_in(expr, a, d),
                SelectItem::Wildcard => Ok(a),
            },
        }
    }
}

/// The requests of a whole projection.
pub open spec fn highlights_of(sel: Select, d: OptsView) -> Result<Seq<ReqView>, ErrorView> {
    requests_of(sel.items@, sel.items@.len() as int, d)
}

pub proof fn lemma_place_of_req_is(rs: Seq<ReqView>, col: Seq<char>, k: int)
    requires
        0 <= k <= rs.len(),
        forall|i: int| 0 <= i < k ==> (#[trigger] rs[i]).0 != col,
        k < rs.len() ==> rs[k].0 == col,
    ensures
        place_of_req(rs, col) == k,
    decreases rs.len(),
{
    if rs.len() > 0 && k > 0 {
        assert(rs[0].0 != col);
        let t = rs.drop_first();
        assert forall|i: int| 0 <= i < k - 1 implies (#[trigger] t[i]).0 != col by {
            assert(t[i] == rs[i + 1]);
        }
        lemma_place_of_req_is(t, col, k - 1);
    }
}

/// What a step of the walk leaves: the list, or the error.
spec fn walked(r: Option<EngineError>, out: Seq<HighlightReq>) -> Result<Seq<ReqView>, ErrorView> {
    match r {
        Some(e) => Err(e@),
        None => Ok(req_views(out)),
    }
}

fn add_request(out: &mut Vec<HighlightReq>, req: HighlightReq) -> (r: Option<EngineError>)
    ensures
        walked(r, final(out)@) == with_req(req_views(old(out)@), (req.0@, req.1@)),
{
    let ghost rs = req_views(out@);
    let n: usize = out.len();
    let mut i: usize = 0;
    while i < n
        invariant
            n == out@.len(),
            i <= n,
            rs == req_views(out@),
            out@ == old(out)@,
            forall|k: int| 0 <= k < i ==> (#[trigger] rs[k]).0 != req.0@,
        decreases n - i,
    {
        proof {
            assert(rs[i as int] == (out@[i as int].0@, out@[i as int].1@));
        }
        if out[i].0 == req.0 {
            proof {
                lemma_place_of_req_is(rs, req.0@, i as int);
            }
            let known = &out[i].1;
            if known.max_chars == req.1.max_chars && known.pre_tag == req.1.pre_tag
                && known.post_tag == req.1.post_tag && known.no_match_size == req.1.no_match_size
                && known.fragments == req.1.fragments {
                return None;
            }
            return Some(
                EngineError::Type(
                    cat3("conflicting HIGHLIGHT options for column '", req.0.as_str(), "'"),
                ),
            );
        }
        i = i + 1;
    }
    proof {
        lemma_place_of_req_is(rs, req.0@, n as int);
    }
    let ghost rv = (req.0@, req.1@);
    out.push(req);
    proof {
        assert(req_views(out@) =~= rs.push(rv));
    }
    None
}

fn walk(expr: &Expr, out: &mut Vec<HighlightReq>, defaults: &HighlightOpts) -> (r: Option<
    EngineError,
>)
    ensures
        walked(r, final(out)@) == requests_in(*expr, req_views(old(out)@), defaults@),
    decreases *expr,
{
    match expr {
        Expr::Func { name, args } => {
            if str_eq(name.as_str(), "highlight") {
                return match parse_highlight_args(args, defaults) {
                    Err(e) => Some(e),
                    Ok(req) => add_request(out, req),
                };
            }
            walk_list(args, out, defaults)
        },
        Expr::Unary { expr, .. } => walk(expr, out, defaults),
        Expr::IsNull { expr, .. } => walk(expr, out, defaults),
        Expr::Binary { left, right, .. } => {
            if let Some(e) = walk(left, out, defaults) {
                return Some(e);
            }
            walk(right, out, defaults)
        },
        Expr::Aggregate { arg, .. } => match arg {
            AggArg::Expr(a) => walk(a, out, defaults),
            _ => None,
        },
        Expr::InList { expr, list, .. } => {
            if let Some(e) = walk(expr, out, defaults) {
                return Some(e);
            }
            walk_list(list, out, defaults)
        },
        Expr::Between { expr, lo, hi, .. } => {
            if let Some(e) = walk(expr, out, defaults) {
                return Some(e);
            }
            if let Some(e) = walk(lo, out, defaults) {
                return Some(e);
            }
            walk(hi, out, defaults)
        },
        Expr::Like { expr, pattern, .. } => {
            if let Some(e) = walk(expr, out, defaults) {
                return Some(e);
            }
            walk(pattern, out, defaults)
        },
        Expr::Literal(_) => None,
        Expr::Column(_) => None,
        Expr::Parameter(_) => None,
    }
}

fn walk_list(list: &Vec<Expr>, out: &mut Vec<HighlightReq>, defaults: &HighlightOpts) -> (r: Option<
    EngineError,
>)
    ensures
        walked(r, final(out)@) == requests_in_list(
            *list,
            list@.len() as int,
            req_views(old(out)@),
            defaults@,
        ),
    decreases *list,
{
    let ghost base = req_views(out@);
    let mut i: usize = 0;
    while i < list.len()
        invariant
            i <= list@.len(),
            base == req_views(old(out)@),
            requests_in_list(*list, i as int, base, defaults@) == Ok::<Seq<ReqView>, ErrorView>(
                req_views(out@),
            ),
        decreases list@.len() - i,
    {
        if let Some(e) = walk(&list[i], out, defaults) {
            proof {
                lemma_list_error(*list, i + 1, list@.len() as int, base, defaults@);
            }
            return Some(e);
        }
        i = i + 1;
    }
    None
}

proof fn lemma_list_error(list: Vec<Expr>, k: int, n: int, rs: Seq<ReqView>, d: OptsView)
    requires
        0 < k <= n <= list@.len(),
        requests_in_list(list, k, rs, d) is Err,
    ensures
        requests_in_list(list, n, rs, d) == requests_in_list(list, k, rs, d),
    decreases n - k,
{
    if k < n {
        lemma_list_error(list, k, n - 1, rs, d);
    }
}

proof fn lemma_items_error(items: Seq<SelectItem>, k: int, n: int, d: OptsView)
    requires
        0 < k <= n <= items.len(),
        requests_of(items, k, d) is Err,
    ensures
        requests_of(items, n, d) == requests_of(items, k, d),
    decreases n - k,
{
    if k < n {
        lemma_items_error(items, k, n - 1, d);
    }
}

/// The `HIGHLIGHT(...)` requests in a search query's projection.
pub fn collect_highlights(sel: &Select, defaults: &HighlightOpts) -> (r: Result<
    Vec<HighlightReq>,
    EngineError,
>)
    ensures
        match r {
            Ok(rs) => highlights_of(*sel, defaults@) == Ok::<Seq<ReqView>, ErrorView>(
                req_views(rs@),
            ),
            Err(e) => highlights_of(*sel, defaults@) == Err::<Seq<ReqView>, ErrorView>(e@),
        },
{
    let mut out: Vec<HighlightReq> = Vec::new();
    let mut i: usize = 0;
    proof {
        assert(req_views(out@) =~= Seq::<ReqView>::empty());
    }
    while i < sel.items.len()
        invariant
            i <= sel.items@.len(),
            requests_of(sel.items@, i as int, defaults@) == Ok::<Seq<ReqView>, ErrorView>(
                req_views(out@),
            ),
        decreases sel.items@.len() - i,
    {
        if let SelectItem::Expr { expr, .. } = &sel.items[i] {
            if let Some(e) = walk(expr, &mut out, defaults) {
                proof {
                    lemma_items_error(sel.items@, i + 1, sel.items@.len() as int, defaults@);
                }
                return Err(e);
            }
        }
        i = i + 1;
    }
    Ok(out)
}

/// No column is asked to be highlighted twice.
pub proof fn one_highlight_per_column(rs: Seq<ReqView>, r: ReqView)
    requires
        forall|i: int, j: int|
            0 <= i < j < rs.len() ==> (#[trigger] rs[i]).0 != (#[trigger] rs[j]).0,
    ensures
        with_req(rs, r) matches Ok(out) ==> forall|i: int, j: int|
            0 <= i < j < out.len() ==> (#[trigger] out[i]).0 != (#[trigger] out[j]).0,
{
    lemma_place_of_req(rs, r.0);
}

proof fn lemma_place_of_req(rs: Seq<ReqView>, col: Seq<char>)
    ensures
        0 <= place_of_req(rs, col) <= rs.len(),
        forall|i: int| 0 <= i < place_of_req(rs, col) ==> (#[trigger] rs[i]).0 != col,
    decreases rs.len(),
{
    if rs.len() > 0 && rs[0].0 != col {
        let t = rs.drop_first();
        lemma_place_of_req(t, col);
        assert forall|i: int| 0 <= i < place_of_req(rs, col) implies (#[trigger] rs[i]).0
            != col by {
            if i > 0 {
                assert(rs[i] == t[i - 1]);
            }
        }
    }
}

} // verus!
