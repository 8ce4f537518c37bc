//! Which document fields a grouped query can read, so that the gather decodes
//! no others.

use vstd::prelude::*;

use crate::ast::AggArg;
use crate::ast::Expr;
use crate::ast::Select;
use crate::ast::SelectItem;
use crate::sorted_map::SortedMap;
use crate::text::first_of;
use crate::text::lemma_first_of;
use crate::text::split_once;

verus! {

/// A set of names.
pub struct NameSet {
    pub names: SortedMap<String, ()>,
}

impl View for NameSet {
    type V = Set<Seq<char>>;

    open spec fn view(&self) -> Set<Seq<char>> {
        self.names@.dom()
    }
}

impl NameSet {
    pub open spec fn wf(&self) -> bool {
        self.names.wf()
    }

    /// The empty set.
    pub fn new() -> (r: NameSet)
        ensures
            r.wf(),
            r@ == Set::<Seq<char>>::empty(),
    {
        let r = NameSet { names: SortedMap::new() };
        proof {
            assert(r@ =~= Set::<Seq<char>>::empty());
        }
        r
    }

    /// Adds a name.
    pub fn add_name(&mut self, name: String)
        requires
            old(self).wf(),
        ensures
            final(self).wf(),
            final(self)@ == old(self)@.insert(name@),
    {
        self.names.insert(name, ());
        proof {
            assert(self@ =~= old(self)@.insert(name@));
        }
    }

    /// Takes a name out.
    pub fn drop_name(&mut self, name: &str)
        requires
            old(self).wf(),
        ensures
            final(self).wf(),
            final(self)@ == old(self)@.remove(name@),
    {
        self.names.remove(&name.to_owned());
        proof {
            assert(self@ =~= old(self)@.remove(name@));
        }
    }

    /// Whether `name` is in the set.
    pub fn contains(&self, name: &str) -> (r: bool)
        requires
            self.wf(),
        ensures
            r == self@.contains(name@),
    {
        self.names.contains(&name.to_owned())
    }

    /// The number of names.
    pub fn len(&self) -> (n: usize)
        ensures
            n == self.names.entries@.len(),
    {
        self.names.len()
    }
}

/// The first segment of a dotted path.
pub open spec fn top_field(path: Seq<char>) -> Seq<char> {
    path.take(first_of(path, '.'))
}

/// Whether evaluating `e` could read the top-level field `c`: some column
/// inside `e`, at any depth, has it as its first path segment.
pub open spec fn reads_field(e: Expr, c: Seq<char>) -> bool
    decreases e,
{
    match e {
        Expr::Column(path) => top_field(path@) == c,
        Expr::Literal(_) => false,
        Expr::Parameter(_) => false,
        Expr::Unary { expr, .. } => reads_field(*expr, c),
        Expr::IsNull { expr, .. } => reads_field(*expr, c),
        Expr::Binary { left, right, .. } => reads_field(*left, c) || reads_field(*right, c),
        Expr::InList { expr, list, .. } => reads_field(*expr, c) || exists|i: int|
            0 <= i < list@.len() && reads_field(#[trigger] list@[i], c),
        Expr::Between { expr, lo, hi, .. } => reads_field(*expr, c) || reads_field(*lo, c)
            || reads_field(*hi, c),
        Expr::Like { expr, pattern, .. } => reads_field(*expr, c) || reads_field(*pattern, c),
        Expr::Func { args, .. } => exists|i: int|
            0 <= i < args@.len() && reads_field(#[trigger] args@[i], c),
        Expr::Aggregate { arg, .. } => match arg {
            AggArg::Star => false,
            AggArg::Expr(a) => reads_field(*a, c),
            AggArg::Distinct(a) => reads_field(*a, c),
            AggArg::ApproxDistinct(a) => reads_field(*a, c),
        },
    }
}

/// Whether some expression of a list could read the field `c`.
pub open spec fn any_reads(es: Seq<Expr>, c: Seq<char>) -> bool {
    exists|i: int| 0 <= i < es.len() && reads_field(#[trigger] es[i], c)
}

/// Adds every top-level field that `expr` could read to `out`.
pub fn column_refs(expr: &Expr, out: &mut NameSet)
    requires
        old(out).wf(),
    ensures
        final(out).wf(),
        forall|c: Seq<char>| #[trigger]
            final(out)@.contains(c) <==> old(out)@.contains(c) || reads_field(*expr, c),
    decreases *expr,
{
    match expr {
        Expr::Column(path) => {
            proof {
                lemma_first_of(path@, '.');
            }
            let top = match split_once(path.as_str(), '.') {
                Some(parts) => parts.0,
                None => {
                    proof {
                        assert(path@.take(path@.len() as int) =~= path@);
                    }
                    path.clone()
                },
            };
            out.add_name(top);
        },
        Expr::Literal(_) => {},
        Expr::Parameter(_) => {},
        Expr::Unary { expr, .. } => column_refs(expr, out),
        Expr::IsNull { expr, .. } => column_refs(expr, out),
        Expr::Binary { left, right, .. } => {
            column_refs(left, out);
            column_refs(right, out);
        },
        Expr::InList { expr, list, .. } => {
            column_refs(expr, out);
            column_refs_all(list, out);
        },
        Expr::Between { expr, lo, hi, .. } => {
            column_refs(expr, out);
            column_refs(lo, out);
            column_refs(hi, out);
        },
        Expr::Like { expr, pattern, .. } => {
            column_refs(expr, out);
            column_refs(pattern, out);
        },
        Expr::Func { args, .. } => column_refs_all(args, out),
        Expr::Aggregate { arg, .. } => match arg {
            AggArg::Star => {},
            AggArg::Expr(e) => column_refs(e, out),
            AggArg::Distinct(e) => column_refs(e, out),
            AggArg::ApproxDistinct(e) => column_refs(e, out),
        },
    }
}

/// Adds every top-level field that one of `list` could read to `out`.
pub fn column_refs_all(list: &Vec<Expr>, out: &mut NameSet)
    requires
        old(out).wf(),
    ensures
        final(out).wf(),
        forall|c: Seq<char>| #[trigger]
            final(out)@.contains(c) <==> old(out)@.contains(c) || any_reads(list@, c),
    decreases *list,
{
    let mut i: usize = 0;
    while i < list.len()
        invariant
            i <= list.len(),
            out.wf(),
            forall|c: Seq<char>| #[trigger]
                out@.contains(c) <==> old(out)@.contains(c) || exists|k: int|
                    0 <= k < i && reads_field(#[trigger] list@[k], c),
        decreases list.len() - i,
    {
        column_refs(&list[i], out);
        i = i + 1;
    }
}

/// Whether an aggregate stands in `e` at a place where it would be evaluated
/// over a group.
pub open spec fn has_aggregate(e: Expr) -> bool
    decreases e,
{
    match e {
        Expr::Aggregate { .. } => true,
        Expr::Column(_) => false,
        Expr::Literal(_) => false,
        Expr::Parameter(_) => false,
        Expr::Unary { expr, .. } => has_aggregate(*expr),
        Expr::IsNull { expr, .. } => has_aggregate(*expr),
        Expr::Binary { left, right, .. } => has_aggregate(*left) || has_aggregate(*right),
        Expr::InList { expr, list, .. } => has_aggregate(*expr) || exists|i: int|
            0 <= i < list@.len() && has_aggregate(#[trigger] list@[i]),
        Expr::Between { expr, lo, hi, .. } => has_aggregate(*expr) || has_aggregate(*lo)
            || has_aggregate(*hi),
        Expr::Like { expr, pattern, .. } => has_aggregate(*expr) || has_aggregate(*pattern),
        Expr::Func { args, .. } => exists|i: int|
            0 <= i < args@.len() && has_aggregate(#[trigger] args@[i]),
    }
}

/// Whether `expr` contains an aggregate.
pub fn contains_aggregate(expr: &Expr) -> (r: bool)
    ensures
        r == has_aggregate(*expr),
    decreases *expr,
{
    match expr {
        Expr::Aggregate { .. } => true,
        Expr::Column(_) => false,
        Expr::Literal(_) => false,
        Expr::Parameter(_) => false,
        Expr::Unary { expr, .. } => contains_aggregate(expr),
        Expr::IsNull { expr, .. } => contains_aggregate(expr),
        Expr::Binary { left, right, .. } => contains_aggregate(left) || contains_aggregate(right),
        Expr::InList { expr, list, .. } => contains_aggregate(expr) || contains_aggregate_any(list),
        Expr::Between { expr, lo, hi, .. } => contains_aggregate(expr) || contains_aggregate(lo)
            || contains_aggregate(hi),
        Expr::Like { expr, pattern, .. } => contains_aggregate(expr) || contains_aggregate(pattern),
        Expr::Func { args, .. } => contains_aggregate_any(args),
    }
}

fn contains_aggregate_any(list: &Vec<Expr>) -> (r: bool)
    ensures
        r == exists|i: int| 0 <= i < list@.len() && has_aggregate(#[trigger] list@[i]),
    decreases *list,
{
    let mut i: usize = 0;
    while i < list.len()
        invariant
            i <= list.len(),
            forall|k: int| 0 <= k < i ==> !has_aggregate(#[trigger] list@[k]),
        decreases list.len() - i,
    {
        if contains_aggregate(&list[i]) {
            return true;
        }
        i = i + 1;
    }
    false
}

/// Whether a projected item is an expression with an aggregate.
pub open spec fn item_aggregates(item: SelectItem) -> bool {
    item matches SelectItem::Expr { expr, .. } && has_aggregate(expr)
}

/// Whether a query is in aggregate or grouped mode.
pub open spec fn grouped(sel: Select) -> bool {
    sel.group_by@.len() > 0 || exists|i: int|
        0 <= i < sel.items@.len() && item_aggregates(#[trigger] sel.items@[i])
}

/// Whether `*` is among the projected items.
pub open spec fn wildcard(sel: Select) -> bool {
    exists|i: int| 0 <= i < sel.items@.len() && (#[trigger] sel.items@[i]) is Wildcard
}

/// Whether the query is in aggregate/grouped mode.
pub fn is_grouped(sel: &Select) -> (r: bool)
    ensures
        r == grouped(*sel),
{
    if sel.group_by.len() > 0 {
        return true;
    }
    let mut i: usize = 0;
    while i < sel.items.len()
        invariant
            i <= sel.items.len(),
            forall|k: int| 0 <= k < i ==> !item_aggregates(#[trigger] sel.items@[k]),
        decreases sel.items.len() - i,
    {
        if let SelectItem::Expr { expr, .. } = &sel.items[i] {
            if contains_aggregate(expr) {
                assert(item_aggregates(sel.items@[i as int]));
                return true;
            }
        }
        i = i + 1;
    }
    false
}

/// Whether `*` is among the projected items.
pub fn has_wildcard(sel: &Select) -> (r: bool)
    ensures
        r == wildcard(*sel),
{
    let mut i: usize = 0;
    while i < sel.items.len()
        invariant
            i <= sel.items.len(),
            forall|k: int| 0 <= k < i ==> !((#[trigger] sel.items@[k]) is Wildcard),
        decreases sel.items.len() - i,
    {
        if let SelectItem::Wildcard = &sel.items[i] {
            return true;
        }
        i = i + 1;
    }
    false
}

/// Whether a projected item could read the field `c`.
pub open spec fn item_reads(item: SelectItem, c: Seq<char>) -> bool {
    item matches SelectItem::Expr { expr, .. } && reads_field(expr, c)
}

/// Whether any clause of a grouped query could read the field `c`: the
/// filter, the grouping, the projection, `HAVING` or the ordering.
pub open spec fn query_reads(sel: Select, c: Seq<char>) -> bool {
    ||| sel.filter matches Some(f) && reads_field(f, c)
    ||| any_reads(sel.group_by@, c)
    ||| exists|i: int| 0 <= i < sel.items@.len() && item_reads(#[trigger] sel.items@[i], c)
    ||| sel.having matches Some(h) && reads_field(h, c)
    ||| exists|i: int|
        0 <= i < sel.order_by@.len() && reads_field((#[trigger] sel.order_by@[i]).expr, c)
}

/// Whether the fields that a query reads are known from its clauses: a plain
/// grouped query over one table.
pub open spec fn prunable(sel: Select) -> bool {
    &&& grouped(sel)
    &&& sel.group_top is None
    &&& !wildcard(sel)
    &&& sel.joins@.len() == 0
    &&& sel.set_ops@.len() == 0
    &&& sel.nearest is None
}

/// The set of top-level document fields a plain `GROUP BY`/aggregate query
/// can possibly read; nothing when pruning is not safe to attempt.
pub fn group_by_projection_columns(sel: &Select) -> (r: Option<NameSet>)
    ensures
        r is Some <==> prunable(*sel),
        r matches Some(set) ==> set.wf() && forall|c: Seq<char>| #[trigger]
            set@.contains(c) <==> query_reads(*sel, c),
{
    if !is_grouped(sel) || sel.group_top.is_some() || has_wildcard(sel) || sel.joins.len() > 0
        || sel.set_ops.len() > 0 || sel.nearest.is_some() {
        return None;
    }
    let mut out = NameSet::new();
    if let Some(filter) = &sel.filter {
        column_refs(filter, &mut out);
    }
    column_refs_all(&sel.group_by, &mut out);
    let ghost before = out@;
    let mut i: usize = 0;
    while i < sel.items.len()
        invariant
            i <= sel.items.len(),
            out.wf(),
            forall|c: Seq<char>| #[trigger]
                out@.contains(c) <==> before.contains(c) || exists|k: int|
                    0 <= k < i && item_reads(#[trigger] sel.items@[k], c),
        decreases sel.items.len() - i,
    {
        if let SelectItem::Expr { expr, .. } = &sel.items[i] {
            column_refs(expr, &mut out);
        }
        i = i + 1;
    }
    if let Some(having) = &sel.having {
        column_refs(having, &mut out);
    }
    let ghost before = out@;
    let mut i: usize = 0;
    while i < sel.order_by.len()
        invariant
            i <= sel.order_by.len(),
            out.wf(),
            forall|c: Seq<char>| #[trigger]
                out@.contains(c) <==> before.contains(c) || exists|k: int|
                    0 <= k < i && reads_field((#[trigger] sel.order_by@[k]).expr, c),
        decreases sel.order_by.len() - i,
    {
        column_refs(&sel.order_by[i].expr, &mut out);
        i = i + 1;
    }
    Some(out)
}

} // verus!
