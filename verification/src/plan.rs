//! Access paths: which index or key range serves a filter, and the tuples of
//! values that bound the scan. A bound is a tuple of literals; its bytes are
//! the order-preserving encoding of the tuple.

use vstd::prelude::*;

use crate::ast::BinaryOp;
use crate::ast::Expr;
use crate::bytes::bytes_lt;
use crate::catalog::IndexDef;
use crate::constraints::check_equalities;
use crate::constraints::collect_comparisons;
use crate::constraints::column_constraints;
use crate::constraints::comparison_views;
use crate::constraints::compared_by;
use crate::constraints::comparisons;
use crate::constraints::compares;
use crate::constraints::conjunctive;
use crate::constraints::constraint_on;
use crate::constraints::constraint_views;
use crate::constraints::constraints;
use crate::constraints::constraints_lose_no_match;
use crate::constraints::equalities_agree;
use crate::constraints::filter_is_conjunctive;
use crate::constraints::find_col;
use crate::constraints::is_compared_by;
use crate::constraints::is_key_function;
use crate::constraints::is_lower;
use crate::constraints::lemma_constraints;
use crate::constraints::lemma_place_of_col;
use crate::constraints::order_key;
use crate::constraints::place_of_col;
use crate::constraints::pointees;
use crate::constraints::satisfies;
use crate::constraints::satisfies_all;
use crate::constraints::sums_up;
use crate::constraints::ColConstraint;
use crate::constraints::Comparison;
use crate::constraints::ComparisonView;
use crate::constraints::ConstraintView;
use crate::ddl_index::is_multikey;
use crate::projection::NameSet;
use crate::sorted_map::SortedMap;
use crate::text::ends_with;
use crate::text::str_eq;
use crate::text::strip_suffix;
use crate::text::views;
use crate::value::type_label;
use crate::value::value_type_label;
use crate::value::Value;

verus! {

/// What a tuple of references points to.
pub open spec fn tuple(t: Seq<&Value>) -> Seq<Value> {
    t.map_values(|v: &Value| *v)
}

/// A copy of a tuple of references.
pub fn copy_tuple<'a>(t: &Vec<&'a Value>) -> (r: Vec<&'a Value>)
    ensures
        r@ == t@,
{
    let mut out: Vec<&'a Value> = Vec::new();
    let mut i: usize = 0;
    while i < t.len()
        invariant
            i <= t@.len(),
            out@ == t@.take(i as int),
        decreases t@.len() - i,
    {
        out.push(t[i]);
        proof {
            assert(t@.take(i + 1) =~= t@.take(i as int).push(t@[i as int]));
        }
        i = i + 1;
    }
    proof {
        assert(t@.take(t@.len() as int) =~= t@);
    }
    out
}

/// A tuple with one more value at its end.
pub fn extended<'a>(t: &Vec<&'a Value>, v: &'a Value) -> (r: Vec<&'a Value>)
    ensures
        tuple(r@) == tuple(t@).push(*v),
{
    let mut out = copy_tuple(t);
    out.push(v);
    proof {
        assert(tuple(out@) =~= tuple(t@).push(*v));
    }
    out
}

/// Whether a column is pinned by an equality.
pub open spec fn pinned_by_eq(cs: Seq<ConstraintView>, col: Seq<char>) -> bool {
    constraint_on(cs, col) matches Some(c) && c.eq is Some
}

/// The first place from `i` on whose path no equality pins.
pub open spec fn run_from(paths: Seq<Seq<char>>, cs: Seq<ConstraintView>, i: int) -> int
    decreases paths.len() - i,
{
    if 0 <= i < paths.len() && pinned_by_eq(cs, paths[i]) {
        run_from(paths, cs, i + 1)
    } else {
        i
    }
}

/// The number of leading paths that equalities pin.
pub open spec fn eq_run(paths: Seq<Seq<char>>, cs: Seq<ConstraintView>) -> int {
    run_from(paths, cs, 0)
}

/// The values that the first `n` paths are pinned to.
pub open spec fn eq_values(paths: Seq<Seq<char>>, cs: Seq<ConstraintView>, n: int) -> Seq<Value> {
    Seq::new(n as nat, |k: int| (constraint_on(cs, paths[k])->0).eq->0)
}

/// The range on the path at `i`, where it has one.
pub open spec fn range_at(paths: Seq<Seq<char>>, cs: Seq<ConstraintView>, i: int) -> Option<
    ConstraintView,
> {
    if 0 <= i < paths.len() {
        match constraint_on(cs, paths[i]) {
            Some(c) => if c.lo is Some || c.hi is Some {
                Some(c)
            } else {
                None
            },
            None => None,
        }
    } else {
        None
    }
}

proof fn lemma_run(paths: Seq<Seq<char>>, cs: Seq<ConstraintView>, i: int)
    requires
        0 <= i <= paths.len(),
    ensures
        i <= run_from(paths, cs, i) <= paths.len(),
        forall|k: int| i <= k < run_from(paths, cs, i) ==> pinned_by_eq(cs, #[trigger] paths[k]),
        run_from(paths, cs, i) < paths.len() ==> !pinned_by_eq(cs, paths[run_from(paths, cs, i)]),
    decreases paths.len() - i,
{
    if i < paths.len() && pinned_by_eq(cs, paths[i]) {
        lemma_run(paths, cs, i + 1);
    }
}

/// A scan of one index: the tuples it starts and ends at, whether the rows
/// come in the requested order, and whether the walk runs backwards for it.
pub struct ScanPlan<'a> {
    pub start: Option<Vec<&'a Value>>,
    pub end: Option<Vec<&'a Value>>,
    pub sorted: bool,
    pub reverse: bool,
}

pub struct ScanView {
    pub start: Option<Seq<Value>>,
    pub end: Option<Seq<Value>>,
    pub sorted: bool,
    pub reverse: bool,
}

/// An optional tuple by what it points to.
pub open spec fn opt_tuple(t: Option<Vec<&Value>>) -> Option<Seq<Value>> {
    match t {
        Some(x) => Some(tuple(x@)),
        None => None,
    }
}

impl<'a> View for ScanPlan<'a> {
    type V = ScanView;

    open spec fn view(&self) -> ScanView {
        ScanView {
            start: opt_tuple(self.start),
            end: opt_tuple(self.end),
            sorted: self.sorted,
            reverse: self.reverse,
        }
    }
}

/// An `ORDER BY` request: the column and whether it descends.
pub struct OrderView {
    pub col: Seq<char>,
    pub descending: bool,
}

/// The tuple that bounds a scan on one side: the pinned values with the range
/// bound behind them, or the pinned values alone.
pub open spec fn bound(prefix: Seq<Value>, range: Option<Value>) -> Seq<Value> {
    match range {
        Some(v) => prefix.push(v),
        None => prefix,
    }
}

/// The same, unbounded where nothing is pinned and the range is open.
pub open spec fn open_bound(prefix: Seq<Value>, range: Option<Value>) -> Option<Seq<Value>> {
    if range is None && prefix.len() == 0 {
        None
    } else {
        Some(bound(prefix, range))
    }
}

/// The lower bound of an optional range.
pub open spec fn lo_of(c: Option<ConstraintView>) -> Option<Value> {
    match c {
        Some(x) => x.lo,
        None => None,
    }
}

/// The upper bound of an optional range.
pub open spec fn hi_of(c: Option<ConstraintView>) -> Option<Value> {
    match c {
        Some(x) => x.hi,
        None => None,
    }
}

/// Whether a scan that pins the first `i` paths yields rows in the requested
/// order: the column is pinned, or is the one the scan runs along.
pub open spec fn serves_order(paths: Seq<Seq<char>>, i: int, order: Option<OrderView>) -> bool {
    order matches Some(o) && exists|k: int|
        0 <= k < paths.len() && k <= i && #[trigger] paths[k] == o.col
}

/// Whether the walk must run from the tail: the order descends along the
/// column the scan runs along.
pub open spec fn needs_reverse(paths: Seq<Seq<char>>, i: int, order: Option<OrderView>) -> bool {
    order matches Some(o) && o.descending && 0 <= i < paths.len() && paths[i] == o.col
}

/// The scan of an index with these paths: a leftmost run of pinned columns,
/// then an optional range on the next one. Nothing where neither those nor
/// the requested order give the index a use.
pub open spec fn scan_for(
    paths: Seq<Seq<char>>,
    cs: Seq<ConstraintView>,
    order: Option<OrderView>,
) -> Option<ScanView> {
    let i = eq_run(paths, cs);
    let prefix = eq_values(paths, cs, i);
    let range = range_at(paths, cs, i);
    let sorted = serves_order(paths, i, order);
    if i == 0 && range is None && !sorted {
        None
    } else {
        Some(
            ScanView {
                start: open_bound(prefix, lo_of(range)),
                end: open_bound(prefix, hi_of(range)),
                sorted,
                reverse: needs_reverse(paths, i, order),
            },
        )
    }
}

/// An `ORDER BY` request by what it asks for.
pub open spec fn order_view(order: Option<(&str, bool)>) -> Option<OrderView> {
    match order {
        Some((col, descending)) => Some(OrderView { col: col@, descending }),
        None => None,
    }
}

/// The values that the leading pinned paths are pinned to.
fn pinned_prefix<'a>(paths: &Vec<String>, cs: &Vec<ColConstraint<'a>>) -> (r: Vec<&'a Value>)
    ensures
        r@.len() == eq_run(views(paths@), constraint_views(cs@)),
        r@.len() <= paths@.len(),
        tuple(r@) == eq_values(
            views(paths@),
            constraint_views(cs@),
            eq_run(views(paths@), constraint_views(cs@)),
        ),
{
    let ghost ps = views(paths@);
    let ghost vs = constraint_views(cs@);
    let mut out: Vec<&'a Value> = Vec::new();
    let mut i: usize = 0;
    let mut going: bool = true;
    while i < paths.len() && going
        invariant
            i <= paths@.len(),
            ps == views(paths@),
            vs == constraint_views(cs@),
            out@.len() == i,
            eq_run(ps, vs) == run_from(ps, vs, i as int),
            forall|k: int|
                0 <= k < i ==> *(#[trigger] out@[k]) == (constraint_on(vs, ps[k])->0).eq->0,
            !going ==> i < paths@.len() && !pinned_by_eq(vs, ps[i as int]),
        decreases paths@.len() - i, (if going { 1int } else { 0int }),
    {
        let p: usize = find_col(cs, paths[i].as_str());
        proof {
            lemma_place_of_col(vs, ps[i as int]);
        }
        let mut pinned: Option<&'a Value> = None;
        if p < cs.len() {
            pinned = cs[p].eq;
            proof {
                assert(vs[p as int] == cs@[p as int]@);
            }
        }
        match pinned {
            Some(v) => {
                out.push(v);
                i = i + 1;
            },
            None => {
                going = false;
            },
        }
    }
    proof {
        assert(tuple(out@) =~= eq_values(ps, vs, i as int));
    }
    out
}

/// The range on the path at `i`.
fn find_range<'a>(paths: &Vec<String>, cs: &Vec<ColConstraint<'a>>, i: usize) -> (r: Option<
    (Option<&'a Value>, Option<&'a Value>),
>)
    ensures
        r is Some <==> range_at(views(paths@), constraint_views(cs@), i as int) is Some,
        r matches Some((lo, hi)) ==> crate::constraints::pointee(lo) == lo_of(
            range_at(views(paths@), constraint_views(cs@), i as int),
        ) && crate::constraints::pointee(hi) == hi_of(
            range_at(views(paths@), constraint_views(cs@), i as int),
        ),
{
    if i >= paths.len() {
        return None;
    }
    let p: usize = find_col(cs, paths[i].as_str());
    proof {
        lemma_place_of_col(constraint_views(cs@), views(paths@)[i as int]);
    }
    if p < cs.len() {
        let c = &cs[p];
        proof {
            assert(constraint_views(cs@)[p as int] == c@);
        }
        if c.lo.is_some() || c.hi.is_some() {
            return Some((c.lo, c.hi));
        }
    }
    None
}

/// The bound tuple of one side.
fn make_bound<'a>(prefix: &Vec<&'a Value>, range: Option<&'a Value>) -> (r: Vec<&'a Value>)
    ensures
        tuple(r@) == bound(tuple(prefix@), crate::constraints::pointee(range)),
{
    match range {
        Some(v) => extended(prefix, v),
        None => copy_tuple(prefix),
    }
}

/// Builds the scan of one index from the filter's constraints and the
/// requested order.
pub fn plan_for_index<'a>(
    paths: &Vec<String>,
    cs: &Vec<ColConstraint<'a>>,
    order: Option<(&str, bool)>,
) -> (r: Option<ScanPlan<'a>>)
    ensures
        r is Some <==> scan_for(views(paths@), constraint_views(cs@), order_view(order)) is Some,
        r matches Some(p) ==> scan_for(views(paths@), constraint_views(cs@), order_view(order))
            == Some(p@),
{
    let ghost ps = views(paths@);
    let prefix = pinned_prefix(paths, cs);
    let i: usize = prefix.len();
    let range = find_range(paths, cs, i);
    let mut sorted: bool = false;
    let mut reverse: bool = false;
    if let Some((col, descending)) = order {
        let mut k: usize = 0;
        while k < paths.len() && k <= i
            invariant
                i <= paths@.len(),
                k <= paths@.len(),
                k <= i + 1,
                ps == views(paths@),
                sorted == exists|j: int| 0 <= j < k && #[trigger] ps[j] == col@,
                !reverse,
            decreases paths@.len() - k,
        {
            if str_eq(paths[k].as_str(), col) {
                assert(ps[k as int] == col@);
                sorted = true;
            }
            k = k + 1;
        }
        if descending && i < paths.len() && str_eq(paths[i].as_str(), col) {
            reverse = true;
        }
    }
    if i == 0 && range.is_none() && !sorted {
        return None;
    }
    let (lo, hi) = match range {
        Some(bounds) => bounds,
        None => (None, None),
    };
    let start = if lo.is_none() && i == 0 {
        None
    } else {
        Some(make_bound(&prefix, lo))
    };
    let end = if hi.is_none() && i == 0 {
        None
    } else {
        Some(make_bound(&prefix, hi))
    };
    Some(ScanPlan { start, end, sorted, reverse })
}

/// Whether a column is pinned by an equality and by nothing else.
pub open spec fn only_eq(cs: Seq<ConstraintView>, col: Seq<char>) -> bool {
    constraint_on(cs, col) matches Some(c) && c.eq is Some && c.lo is None && c.hi is None
}

/// The first place from `i` on whose path is not pinned by an equality alone.
pub open spec fn only_eq_from(paths: Seq<Seq<char>>, cs: Seq<ConstraintView>, i: int) -> int
    decreases paths.len() - i,
{
    if 0 <= i < paths.len() && only_eq(cs, paths[i]) {
        only_eq_from(paths, cs, i + 1)
    } else {
        i
    }
}

/// The range on the path at `i`, where no equality is on it too.
pub open spec fn pure_range_at(paths: Seq<Seq<char>>, cs: Seq<ConstraintView>, i: int) -> Option<
    ConstraintView,
> {
    match range_at(paths, cs, i) {
        Some(c) => if c.eq is None {
            Some(c)
        } else {
            None
        },
        None => None,
    }
}

/// The bounds of an index that covers every constraint: a leftmost run of
/// pinned columns, at most one range behind it, and no constraint left over.
pub open spec fn cover_for(paths: Seq<Seq<char>>, cs: Seq<ConstraintView>) -> Option<
    (Seq<Value>, Seq<Value>),
> {
    let i = only_eq_from(paths, cs, 0);
    let prefix = eq_values(paths, cs, i);
    let range = pure_range_at(paths, cs, i);
    let consumed = i + if range is Some {
        1int
    } else {
        0int
    };
    if consumed == 0 || consumed != cs.len() {
        None
    } else {
        Some((bound(prefix, lo_of(range)), bound(prefix, hi_of(range))))
    }
}

/// The bounds of an index that covers every constraint.
pub fn plan_covering<'a>(paths: &Vec<String>, cs: &Vec<ColConstraint<'a>>) -> (r: Option<
    (Vec<&'a Value>, Vec<&'a Value>),
>)
    ensures
        r is Some <==> cover_for(views(paths@), constraint_views(cs@)) is Some,
        r matches Some((start, end)) ==> cover_for(views(paths@), constraint_views(cs@)) == Some(
            (tuple(start@), tuple(end@)),
        ),
{
    let ghost ps = views(paths@);
    let ghost vs = constraint_views(cs@);
    let mut prefix: Vec<&'a Value> = Vec::new();
    let mut i: usize = 0;
    let mut going: bool = true;
    while i < paths.len() && going
        invariant
            i <= paths@.len(),
            ps == views(paths@),
            vs == constraint_views(cs@),
            prefix@.len() == i,
            only_eq_from(ps, vs, 0) == only_eq_from(ps, vs, i as int),
            forall|k: int|
                0 <= k < i ==> *(#[trigger] prefix@[k]) == (constraint_on(vs, ps[k])->0).eq->0,
            !going ==> i < paths@.len() && !only_eq(vs, ps[i as int]),
        decreases paths@.len() - i, (if going { 1int } else { 0int }),
    {
        let p: usize = find_col(cs, paths[i].as_str());
        proof {
            lemma_place_of_col(vs, ps[i as int]);
        }
        let mut pinned: Option<&'a Value> = None;
        if p < cs.len() {
            proof {
                assert(vs[p as int] == cs@[p as int]@);
            }
            if cs[p].lo.is_none() && cs[p].hi.is_none() {
                pinned = cs[p].eq;
            }
        }
        match pinned {
            Some(v) => {
                prefix.push(v);
                i = i + 1;
            },
            None => {
                going = false;
            },
        }
    }
    proof {
        assert(tuple(prefix@) =~= eq_values(ps, vs, i as int));
    }
    let mut range: Option<(Option<&'a Value>, Option<&'a Value>)> = None;
    if i < paths.len() {
        let p: usize = find_col(cs, paths[i].as_str());
        proof {
            lemma_place_of_col(vs, ps[i as int]);
        }
        if p < cs.len() {
            let c = &cs[p];
            proof {
                assert(vs[p as int] == c@);
            }
            if c.eq.is_none() && (c.lo.is_some() || c.hi.is_some()) {
                range = Some((c.lo, c.hi));
            }
        }
    }
    let consumed: usize = if range.is_some() {
        if i == usize::MAX {
            return None;
        }
        i + 1
    } else {
        i
    };
    if consumed == 0 || consumed != cs.len() {
        return None;
    }
    let (lo, hi) = match range {
        Some(bounds) => bounds,
        None => (None, None),
    };
    Some((make_bound(&prefix, lo), make_bound(&prefix, hi)))
}

/// A path without its multikey markers.
pub open spec fn unmarked(path: Seq<char>) -> Seq<char>
    decreases path.len(),
{
    if is_multikey(path) && path.len() >= 2 {
        unmarked(path.take(path.len() - 2))
    } else {
        path
    }
}

/// The columns that index paths are over.
pub open spec fn key_names(paths: Seq<Seq<char>>) -> Seq<Seq<char>> {
    paths.map_values(|p: Seq<char>| unmarked(p))
}

/// The place of the first multikey path from `i` on, or the number of paths.
pub open spec fn multi_from(paths: Seq<Seq<char>>, i: int) -> int
    decreases paths.len() - i,
{
    if 0 <= i < paths.len() && !is_multikey(paths[i]) {
        multi_from(paths, i + 1)
    } else {
        i
    }
}

/// The place of the multikey component, if any.
pub fn multi_pos(paths: &Vec<String>) -> (r: Option<usize>)
    ensures
        r is Some <==> multi_from(views(paths@), 0) < paths@.len(),
        r matches Some(m) ==> m == multi_from(views(paths@), 0) && m < paths@.len(),
{
    let ghost ps = views(paths@);
    let mut i: usize = 0;
    while i < paths.len()
        invariant
            i <= paths@.len(),
            ps == views(paths@),
            multi_from(ps, 0) == multi_from(ps, i as int),
        decreases paths@.len() - i,
    {
        if ends_with(paths[i].as_str(), "[]") {
            return Some(i);
        }
        i = i + 1;
    }
    None
}

fn strip_markers(path: String) -> (r: String)
    ensures
        r@ == unmarked(path@),
{
    proof {
        reveal_strlit("[]");
    }
    let mut p = path;
    let ghost start = path@;
    let mut going: bool = true;
    while going
        invariant
            unmarked(p@) == unmarked(start),
            "[]"@.len() == 2,
            !going ==> !is_multikey(p@),
        decreases p@.len(), (if going { 1int } else { 0int }),
    {
        match strip_suffix(p.as_str(), "[]") {
            Some(q) => {
                p = q;
            },
            None => {
                going = false;
            },
        }
    }
    p
}

/// Index paths with the multikey marker stripped: the columns that filter
/// constraints are matched against.
pub fn index_key_names(paths: &Vec<String>) -> (r: Vec<String>)
    ensures
        views(r@) == key_names(views(paths@)),
{
    let ghost ps = views(paths@);
    let mut out: Vec<String> = Vec::new();
    let mut i: usize = 0;
    proof {
        assert(views(out@) =~= key_names(ps.take(0)));
    }
    while i < paths.len()
        invariant
            i <= paths@.len(),
            ps == views(paths@),
            views(out@) == key_names(ps.take(i as int)),
        decreases paths@.len() - i,
    {
        let ghost before = views(out@);
        out.push(strip_markers(paths[i].clone()));
        proof {
            assert(views(out@) =~= before.push(unmarked(ps[i as int])));
            assert(key_names(ps.take(i + 1)) =~= key_names(ps.take(i as int)).push(
                unmarked(ps[i as int]),
            ));
        }
        i = i + 1;
    }
    proof {
        assert(ps.take(ps.len() as int) =~= ps);
    }
    out
}

/// Whether an index is usable under the constraints: a multikey one only
/// where every column through the multikey component is pinned, so that a row
/// surfaces once and not once per element.
pub open spec fn multikey_usable(paths: Seq<Seq<char>>, cs: Seq<ConstraintView>) -> bool {
    let m = multi_from(paths, 0);
    m < paths.len() ==> forall|k: int|
        0 <= k <= m ==> pinned_by_eq(cs, #[trigger] key_names(paths)[k])
}

fn multikey_pinned(paths: &Vec<String>, names: &Vec<String>, cs: &Vec<ColConstraint<'_>>) -> (r: bool)
    requires
        views(names@) == key_names(views(paths@)),
    ensures
        r == multikey_usable(views(paths@), constraint_views(cs@)),
{
    let ghost ps = views(paths@);
    let ghost vs = constraint_views(cs@);
    let m: usize = match multi_pos(paths) {
        None => {
            return true;
        },
        Some(m) => m,
    };
    proof {
        assert(names@.len() == key_names(ps).len());
    }
    let mut k: usize = 0;
    while k <= m
        invariant
            k <= m + 1,
            m < names.len(),
            names@.len() == paths@.len(),
            ps == views(paths@),
            vs == constraint_views(cs@),
            views(names@) == key_names(ps),
            m == multi_from(ps, 0),
            forall|j: int| 0 <= j < k ==> pinned_by_eq(vs, #[trigger] key_names(ps)[j]),
        decreases m + 1 - k,
    {
        let p: usize = find_col(cs, names[k].as_str());
        proof {
            assert(views(names@)[k as int] == names@[k as int]@);
            lemma_place_of_col(vs, names@[k as int]@);
        }
        let mut pinned: bool = false;
        if p < cs.len() {
            proof {
                assert(vs[p as int] == cs@[p as int]@);
            }
            pinned = cs[p].eq.is_some();
        }
        if !pinned {
            assert(!pinned_by_eq(vs, key_names(ps)[k as int]));
            return false;
        }
        k = k + 1;
    }
    true
}

/// How much of a filter an index consumes: the pinned columns, then a range.
pub open spec fn selectivity(names: Seq<Seq<char>>, cs: Seq<ConstraintView>) -> (int, int) {
    let i = eq_run(names, cs);
    (
        i,
        if range_at(names, cs, i) is Some {
            1int
        } else {
            0int
        },
    )
}

/// Whether one score is higher than another: the pinned columns count first.
pub open spec fn beats(a: (int, int), b: (int, int)) -> bool {
    a.0 > b.0 || (a.0 == b.0 && a.1 > b.1)
}

/// A candidate plan: the index, its scan and its score.
pub struct Candidate {
    pub index: Seq<char>,
    pub scan: ScanView,
    pub score: (int, int),
}

/// The candidate that one index makes for a query on `table`; none where it
/// is on another table, is building, is global, or has no use.
pub open spec fn candidate(
    e: (String, IndexDef),
    table: Seq<char>,
    cs: Seq<ConstraintView>,
    order: Option<OrderView>,
) -> Option<Candidate> {
    let d = e.1@;
    let names = key_names(d.paths);
    if d.table != table || d.building || d.global || !multikey_usable(d.paths, cs) {
        None
    } else {
        match scan_for(names, cs, order) {
            Some(scan) => Some(
                Candidate { index: e.0@, scan, score: selectivity(names, cs) },
            ),
            None => None,
        }
    }
}

/// The better of a slot's candidate and a new one; the earlier on a tie.
pub open spec fn better(slot: Option<Candidate>, c: Candidate) -> Option<Candidate> {
    match slot {
        None => Some(c),
        Some(s) => if beats(c.score, s.score) {
            Some(c)
        } else {
            slot
        },
    }
}

/// The best plan that comes out sorted and the best that does not.
pub struct Best {
    pub sorted: Option<Candidate>,
    pub unsorted: Option<Candidate>,
}

/// The best plans over a run of indexes.
pub open spec fn best_of(
    es: Seq<(String, IndexDef)>,
    table: Seq<char>,
    cs: Seq<ConstraintView>,
    order: Option<OrderView>,
) -> Best
    decreases es.len(),
{
    if es.len() == 0 {
        Best { sorted: None, unsorted: None }
    } else {
        let b = best_of(es.drop_last(), table, cs, order);
        match candidate(es.last(), table, cs, order) {
            None => b,
            Some(c) => if c.scan.sorted {
                Best { sorted: better(b.sorted, c), ..b }
            } else {
                Best { unsorted: better(b.unsorted, c), ..b }
            },
        }
    }
}

/// The largest local range that is read and sorted in place of a sorted walk.
pub const PLANNER_PROBE_MAX: usize = 256;

/// An index and its scan.
pub struct IndexPlan<'a> {
    pub index: String,
    pub scan: ScanPlan<'a>,
}

/// What the planner settled on.
pub enum IndexChoice<'a> {
    /// No index serves the query.
    Scan,
    /// This one does.
    Use(IndexPlan<'a>),
    /// A sorted walk, unless the more selective unsorted range turns out to be
    /// small: its size has to be looked up.
    Probe { sorted: IndexPlan<'a>, unsorted: IndexPlan<'a> },
}

/// Whether a plan is this candidate.
pub open spec fn plan_is(p: IndexPlan<'_>, c: Candidate) -> bool {
    p.index@ == c.index && p.scan@ == c.scan
}

/// Whether a choice is what the best plans call for. A strictly more selective
/// unsorted plan wins outright where nothing bounds a sorted walk, and is
/// probed where an order and a limit do.
pub open spec fn choice_is(ch: IndexChoice<'_>, b: Best, limited_order: bool) -> bool {
    match (b.sorted, b.unsorted) {
        (None, None) => ch is Scan,
        (Some(s), None) => ch matches IndexChoice::Use(p) && plan_is(p, s),
        (None, Some(u)) => ch matches IndexChoice::Use(p) && plan_is(p, u),
        (Some(s), Some(u)) => if !beats(u.score, s.score) {
            ch matches IndexChoice::Use(p) && plan_is(p, s)
        } else if !limited_order {
            ch matches IndexChoice::Use(p) && plan_is(p, u)
        } else {
            ch matches IndexChoice::Probe { sorted, unsorted } && plan_is(sorted, s) && plan_is(
                unsorted,
                u,
            )
        },
    }
}

struct Slot<'a> {
    plan: IndexPlan<'a>,
    eq: usize,
    range: usize,
}

spec fn slot_is(s: Option<Slot<'_>>, c: Option<Candidate>) -> bool {
    match (s, c) {
        (None, None) => true,
        (Some(x), Some(y)) => plan_is(x.plan, y) && (x.eq as int, x.range as int) == y.score,
        _ => false,
    }
}

/// Chooses an index access path for a filter's constraints and an order.
pub fn plan_index<'a>(
    indexes: &SortedMap<String, IndexDef>,
    table: &str,
    cs: &Vec<ColConstraint<'a>>,
    order: Option<(&str, bool)>,
    has_limit: bool,
) -> (r: IndexChoice<'a>)
    requires
        indexes.wf(),
    ensures
        choice_is(
            r,
            best_of(indexes.entries@, table@, constraint_views(cs@), order_view(order)),
            order is Some && has_limit,
        ),
{
    let ghost vs = constraint_views(cs@);
    let ghost ov = order_view(order);
    let ghost es = indexes.entries@;
    let mut sorted: Option<Slot<'a>> = None;
    let mut unsorted: Option<Slot<'a>> = None;
    let mut i: usize = 0;
    while i < indexes.len()
        invariant
            indexes.wf(),
            es == indexes.entries@,
            vs == constraint_views(cs@),
            ov == order_view(order),
            i <= es.len(),
            slot_is(sorted, best_of(es.take(i as int), table@, vs, ov).sorted),
            slot_is(unsorted, best_of(es.take(i as int), table@, vs, ov).unsorted),
        decreases es.len() - i,
    {
        proof {
            assert(es.take(i + 1).drop_last() =~= es.take(i as int));
            assert(es.take(i + 1).last() == es[i as int]);
        }
        let def = indexes.value_at(i);
        if str_eq(def.table.as_str(), table) && !def.building && !def.global {
            let names = index_key_names(&def.paths);
            if multikey_pinned(&def.paths, &names, cs) {
                if let Some(scan) = plan_for_index(&names, cs, order) {
                    let eq: usize = pinned_prefix(&names, cs).len();
                    let range: usize = if find_range(&names, cs, eq).is_some() {
                        1
                    } else {
                        0
                    };
                    let is_sorted: bool = scan.sorted;
                    let fresh = Slot {
                        plan: IndexPlan { index: indexes.key_at(i).clone(), scan },
                        eq,
                        range,
                    };
                    if is_sorted {
                        sorted = better_slot(sorted, fresh);
                    } else {
                        unsorted = better_slot(unsorted, fresh);
                    }
                }
            }
        }
        i = i + 1;
    }
    proof {
        assert(es.take(es.len() as int) =~= es);
    }
    match (sorted, unsorted) {
        (None, None) => IndexChoice::Scan,
        (Some(s), None) => IndexChoice::Use(s.plan),
        (None, Some(u)) => IndexChoice::Use(u.plan),
        (Some(s), Some(u)) => {
            let wins: bool = u.eq > s.eq || (u.eq == s.eq && u.range > s.range);
            if !wins {
                IndexChoice::Use(s.plan)
            } else if !(order.is_some() && has_limit) {
                IndexChoice::Use(u.plan)
            } else {
                IndexChoice::Probe { sorted: s.plan, unsorted: u.plan }
            }
        },
    }
}

fn better_slot<'a>(slot: Option<Slot<'a>>, fresh: Slot<'a>) -> (r: Option<Slot<'a>>)
    ensures
        r == (match slot {
            None => Some(fresh),
            Some(s) => if fresh.eq > s.eq || (fresh.eq == s.eq && fresh.range > s.range) {
                Some(fresh)
            } else {
                slot
            },
        }),
{
    match slot {
        None => Some(fresh),
        Some(s) => if fresh.eq > s.eq || (fresh.eq == s.eq && fresh.range > s.range) {
            Some(fresh)
        } else {
            Some(s)
        },
    }
}

/// Settles a choice once the unsorted range's size, counted up to one past the
/// cap, is known.
pub fn settle_choice<'a>(choice: IndexChoice<'a>, unsorted_rows: usize) -> (r: Option<IndexPlan<'a>>)
    ensures
        match choice {
            IndexChoice::Scan => r is None,
            IndexChoice::Use(p) => r == Some(p),
            IndexChoice::Probe { sorted, unsorted } => r == Some(
                if unsorted_rows <= PLANNER_PROBE_MAX {
                    unsorted
                } else {
                    sorted
                },
            ),
        },
{
    match choice {
        IndexChoice::Scan => None,
        IndexChoice::Use(p) => Some(p),
        IndexChoice::Probe { sorted, unsorted } => if unsorted_rows <= PLANNER_PROBE_MAX {
            Some(unsorted)
        } else {
            Some(sorted)
        },
    }
}

/// The best candidate beats or ties every index of its sort: no index that
/// comes out sorted pins more of the filter than the chosen sorted plan, and
/// likewise for unsorted ones.
pub proof fn best_plan_is_best(
    es: Seq<(String, IndexDef)>,
    table: Seq<char>,
    cs: Seq<ConstraintView>,
    order: Option<OrderView>,
    i: int,
)
    requires
        0 <= i < es.len(),
        candidate(es[i], table, cs, order) is Some,
    ensures
        ({
            let c = candidate(es[i], table, cs, order)->0;
            let b = best_of(es, table, cs, order);
            if c.scan.sorted {
                b.sorted matches Some(s) && !beats(c.score, s.score)
            } else {
                b.unsorted matches Some(u) && !beats(c.score, u.score)
            }
        }),
    decreases es.len(),
{
    if i < es.len() - 1 {
        best_plan_is_best(es.drop_last(), table, cs, order, i);
    }
}

/// The values that every primary-key column is pinned to, where the filter
/// pins each of them by an equality and nothing else.
pub open spec fn point_values(pk: Seq<Seq<char>>, cs: Seq<ConstraintView>) -> Option<Seq<Value>> {
    if pk.len() > 0 && forall|k: int|
        0 <= k < pk.len() ==> only_eq(cs, #[trigger] pk[k]) && !((constraint_on(
            cs,
            pk[k],
        )->0).eq->0 is Null) {
        Some(eq_values(pk, cs, pk.len() as int))
    } else {
        None
    }
}

/// When the filter pins every primary-key column to a literal, the values of
/// the one row key it can match.
pub fn pk_point_key<'a>(pk: &Vec<String>, cs: &Vec<ColConstraint<'a>>) -> (r: Option<
    Vec<&'a Value>,
>)
    ensures
        r is Some <==> point_values(views(pk@), constraint_views(cs@)) is Some,
        r matches Some(t) ==> point_values(views(pk@), constraint_views(cs@)) == Some(tuple(t@)),
{
    if pk.len() == 0 {
        return None;
    }
    let ghost ps = views(pk@);
    let ghost vs = constraint_views(cs@);
    let mut out: Vec<&'a Value> = Vec::new();
    let mut i: usize = 0;
    while i < pk.len()
        invariant
            i <= pk@.len(),
            pk@.len() > 0,
            ps == views(pk@),
            vs == constraint_views(cs@),
            out@.len() == i,
            forall|k: int|
                0 <= k < i ==> only_eq(vs, #[trigger] ps[k]) && !((constraint_on(
                    vs,
                    ps[k],
                )->0).eq->0 is Null),
            forall|k: int|
                0 <= k < i ==> *(#[trigger] out@[k]) == (constraint_on(vs, ps[k])->0).eq->0,
        decreases pk@.len() - i,
    {
        let p: usize = find_col(cs, pk[i].as_str());
        proof {
            lemma_place_of_col(vs, ps[i as int]);
        }
        let mut pinned: Option<&'a Value> = None;
        if p < cs.len() {
            proof {
                assert(vs[p as int] == cs@[p as int]@);
            }
            if cs[p].lo.is_none() && cs[p].hi.is_none() {
                pinned = cs[p].eq;
            }
        }
        match pinned {
            Some(v) => {
                if v.is_null() {
                    assert(!(only_eq(vs, ps[i as int]) && !((constraint_on(
                        vs,
                        ps[i as int],
                    )->0).eq->0 is Null)));
                    return None;
                }
                out.push(v);
            },
            None => {
                assert(!only_eq(vs, ps[i as int]));
                return None;
            },
        }
        i = i + 1;
    }
    proof {
        assert(tuple(out@) =~= eq_values(ps, vs, ps.len() as int));
    }
    Some(out)
}

/// The key range of the table that a filter bounds: a leftmost run of pinned
/// primary-key columns, short of all of them, and the range on the next one.
pub open spec fn pk_range(pk: Seq<Seq<char>>, cs: Seq<ConstraintView>) -> Option<
    (Seq<Value>, Seq<Value>),
> {
    let i = eq_run(pk, cs);
    if i == 0 || i >= pk.len() {
        None
    } else {
        let range = range_at(pk, cs, i);
        Some(
            (
                bound(eq_values(pk, cs, i), lo_of(range)),
                bound(eq_values(pk, cs, i), hi_of(range)),
            ),
        )
    }
}

/// The tuples between which the filter bounds a scan of the table itself.
pub fn pk_prefix_scan_range<'a>(pk: &Vec<String>, cs: &Vec<ColConstraint<'a>>) -> (r: Option<
    (Vec<&'a Value>, Vec<&'a Value>),
>)
    ensures
        r is Some <==> pk_range(views(pk@), constraint_views(cs@)) is Some,
        r matches Some((start, end)) ==> pk_range(views(pk@), constraint_views(cs@)) == Some(
            (tuple(start@), tuple(end@)),
        ),
{
    let prefix = pinned_prefix(pk, cs);
    let i: usize = prefix.len();
    if i == 0 || i >= pk.len() {
        return None;
    }
    let (lo, hi) = match find_range(pk, cs, i) {
        Some(bounds) => bounds,
        None => (None, None),
    };
    Some((make_bound(&prefix, lo), make_bound(&prefix, hi)))
}

/// An index scan that counts a filter exactly: the index and the tuples
/// between which its entries are the matching rows. Where a comparison is
/// strict, the entries that begin with the bound itself are left out.
pub struct Cover<'a> {
    pub index: String,
    pub start: Vec<&'a Value>,
    pub end: Vec<&'a Value>,
    pub skip_start: bool,
    pub skip_end: bool,
}

/// Whether the entries between two bounds are all of one type in the column
/// of the range: a comparison matches within its type only, while an index
/// holds an entry for every row, of whatever type or `NULL`, so that a range
/// open on one side takes in entries that do not match.
pub open spec fn one_type(start: Seq<Value>, end: Seq<Value>) -> bool {
    start.len() == end.len() && (start.len() > 0 ==> type_label(start.last()) == type_label(
        end.last(),
    ))
}

/// Whether the entries between two bounds are all of one type.
fn is_one_type(start: &Vec<&Value>, end: &Vec<&Value>) -> (r: bool)
    ensures
        r == one_type(tuple(start@), tuple(end@)),
{
    let n: usize = start.len();
    if n != end.len() {
        return false;
    }
    if n == 0 {
        return true;
    }
    proof {
        assert(tuple(start@).last() == *start@[n - 1]);
        assert(tuple(end@).last() == *end@[n - 1]);
    }
    str_eq(value_type_label(start[n - 1]), value_type_label(end[n - 1]))
}

/// Whether the comparison that a bound comes from is made by the strict
/// operator `op`.
pub open spec fn strict_bound<F: Fn(&Value) -> Vec<u8>>(
    key: F,
    ms: Seq<ComparisonView>,
    names: Seq<Seq<char>>,
    b: Seq<Value>,
    op: BinaryOp,
) -> bool {
    0 < b.len() <= names.len() && compared_by(key, ms, names[b.len() - 1], op, b.last())
}

/// Whether the comparison that a bound comes from is made by the strict
/// operator `op`.
fn is_strict_bound<F: Fn(&Value) -> Vec<u8>>(
    ms: &Vec<Comparison<'_>>,
    names: &Vec<String>,
    b: &Vec<&Value>,
    op: BinaryOp,
    key: &F,
) -> (r: bool)
    requires
        is_key_function(*key),
    ensures
        r == strict_bound(*key, comparison_views(ms@), views(names@), tuple(b@), op),
{
    let n: usize = b.len();
    if n == 0 || n > names.len() {
        return false;
    }
    proof {
        assert(tuple(b@).last() == *b@[n - 1]);
        assert(views(names@)[n - 1] == names@[n - 1]@);
    }
    is_compared_by(ms, names[n - 1].as_str(), op, b[n - 1], key)
}

/// Whether an index answers a conjunction of comparisons exactly.
pub open spec fn index_covers(
    e: (String, IndexDef),
    open: Set<Seq<char>>,
    table: Seq<char>,
    cs: Seq<ConstraintView>,
) -> bool {
    let d = e.1@;
    &&& d.table == table
    &&& !d.building
    &&& !d.global
    &&& multikey_usable(d.paths, cs)
    &&& cover_for(key_names(d.paths), cs) matches Some((start, end)) && one_type(start, end)
    &&& open.contains(e.0@)
}

/// Whether `c` is the first covering index in name order, or there is none.
pub open spec fn cover_is<F: Fn(&Value) -> Vec<u8>>(
    c: Option<Cover<'_>>,
    es: Seq<(String, IndexDef)>,
    open: Set<Seq<char>>,
    table: Seq<char>,
    key: F,
    ms: Seq<ComparisonView>,
) -> bool {
    let cs = constraints(key, ms);
    match c {
        None => forall|k: int|
            0 <= k < es.len() ==> !index_covers(#[trigger] es[k], open, table, cs),
        Some(x) => exists|k: int|
            0 <= k < es.len() && index_covers(#[trigger] es[k], open, table, cs) && x.index@
                == es[k].0@ && cover_for(key_names(es[k].1@.paths), cs) == Some(
                (tuple(x.start@), tuple(x.end@)),
            ) && x.skip_start == strict_bound(
                key,
                ms,
                key_names(es[k].1@.paths),
                tuple(x.start@),
                BinaryOp::Gt,
            ) && x.skip_end == strict_bound(
                key,
                ms,
                key_names(es[k].1@.paths),
                tuple(x.end@),
                BinaryOp::Lt,
            ) && forall|j: int|
                0 <= j < k ==> !index_covers(#[trigger] es[j], open, table, cs),
    }
}

/// The first index that covers the comparisons exactly. `open` names the
/// indexes whose entries are at hand.
pub fn find_cover<'a, F: Fn(&Value) -> Vec<u8>>(
    indexes: &SortedMap<String, IndexDef>,
    open: &NameSet,
    table: &str,
    ms: &Vec<Comparison<'a>>,
    key: &F,
) -> (r: Option<Cover<'a>>)
    requires
        indexes.wf(),
        open.wf(),
        is_key_function(*key),
    ensures
        cover_is(r, indexes.entries@, open@, table@, *key, comparison_views(ms@)),
{
    let all = column_constraints(ms, key);
    let cs = &all;
    let ghost vs = constraint_views(cs@);
    let ghost es = indexes.entries@;
    let mut i: usize = 0;
    while i < indexes.len()
        invariant
            indexes.wf(),
            open.wf(),
            is_key_function(*key),
            es == indexes.entries@,
            vs == constraint_views(cs@),
            vs == constraints(*key, comparison_views(ms@)),
            i <= es.len(),
            forall|k: int| 0 <= k < i ==> !index_covers(#[trigger] es[k], open@, table@, vs),
        decreases es.len() - i,
    {
        let def = indexes.value_at(i);
        if str_eq(def.table.as_str(), table) && !def.building && !def.global {
            let names = index_key_names(&def.paths);
            if multikey_pinned(&def.paths, &names, cs) {
                if let Some((start, end)) = plan_covering(&names, cs) {
                    if is_one_type(&start, &end) && open.contains(indexes.key_at(i).as_str()) {
                        assert(index_covers(es[i as int], open@, table@, vs));
                        let skip_start = is_strict_bound(ms, &names, &start, BinaryOp::Gt, key);
                        let skip_end = is_strict_bound(ms, &names, &end, BinaryOp::Lt, key);
                        let index = indexes.key_at(i).clone();
                        return Some(Cover { index, start, end, skip_start, skip_end });
                    }
                }
            }
        }
        i = i + 1;
    }
    None
}

/// The comparisons of a list of conjuncts, in order.
pub open spec fn all_comparisons(es: Seq<Expr>) -> Seq<ComparisonView>
    decreases es.len(),
{
    if es.len() == 0 {
        Seq::empty()
    } else {
        all_comparisons(es.drop_last()) + comparisons(es.last())
    }
}

/// Whether every conjunct of a list is a conjunction of count-safe comparisons.
pub open spec fn all_conjunctive(es: Seq<Expr>) -> bool {
    forall|i: int| 0 <= i < es.len() ==> conjunctive(#[trigger] es[i])
}

/// The comparisons of a list of conjuncts with one more equality, where they
/// are conjunctions of count-safe comparisons that constraints can sum up: no
/// column is to equal two values.
pub open spec fn countable<F: Fn(&Value) -> Vec<u8>>(
    key: F,
    es: Seq<Expr>,
    extra: Seq<ComparisonView>,
) -> Option<Seq<ComparisonView>> {
    let ms = all_comparisons(es) + extra;
    if all_conjunctive(es) && constraints(key, ms).len() > 0 && equalities_agree(key, ms) {
        Some(ms)
    } else {
        None
    }
}

/// The covering index of a list of conjuncts with one more equality.
fn cover_conjuncts<'a, F: Fn(&Value) -> Vec<u8>>(
    indexes: &SortedMap<String, IndexDef>,
    open: &NameSet,
    table: &str,
    es: &Vec<&'a Expr>,
    extra: Option<(&'a String, &'a Value)>,
    key: &F,
) -> (r: Option<Cover<'a>>)
    requires
        indexes.wf(),
        open.wf(),
        is_key_function(*key),
    ensures
        match countable(*key, pointees(es@), extra_comparison(extra)) {
            Some(ms) => cover_is(r, indexes.entries@, open@, table@, *key, ms),
            None => r is None,
        },
{
    let ghost xs = pointees(es@);
    let mut ms: Vec<Comparison<'a>> = Vec::new();
    let mut i: usize = 0;
    proof {
        assert(comparison_views(ms@) =~= Seq::<ComparisonView>::empty());
        assert(xs.take(0) =~= Seq::<Expr>::empty());
    }
    while i < es.len()
        invariant
            i <= es@.len(),
            xs == pointees(es@),
            forall|k: int| 0 <= k < i ==> conjunctive(#[trigger] xs[k]),
            comparison_views(ms@) == all_comparisons(xs.take(i as int)),
        decreases es@.len() - i,
    {
        proof {
            assert(xs[i as int] == *es@[i as int]);
            assert(xs.take(i + 1).drop_last() =~= xs.take(i as int));
            assert(xs.take(i + 1).last() == xs[i as int]);
        }
        if !filter_is_conjunctive(es[i]) {
            assert(!conjunctive(xs[i as int]));
            return None;
        }
        collect_comparisons(es[i], &mut ms);
        i = i + 1;
    }
    proof {
        assert(xs.take(xs.len() as int) =~= xs);
    }
    let ghost base = comparison_views(ms@);
    match extra {
        Some((col, value)) => {
            ms.push(Comparison { col, op: BinaryOp::Eq, value });
            proof {
                assert(comparison_views(ms@) =~= base + extra_comparison(extra));
            }
        },
        None => {
            proof {
                assert(base + Seq::<ComparisonView>::empty() =~= base);
            }
        },
    }
    if ms.len() == 0 || !check_equalities(&ms, key) {
        proof {
            assert(comparison_views(ms@).len() == ms@.len());
        }
        return None;
    }
    proof {
        let vs = comparison_views(ms@);
        lemma_constraints(*key, vs);
        assert(constraint_on(constraints(*key, vs), vs[0].col) is Some);
        lemma_place_of_col(constraints(*key, vs), vs[0].col);
    }
    find_cover(indexes, open, table, &ms, key)
}

/// The comparison that one more equality makes.
pub open spec fn extra_comparison(extra: Option<(&String, &Value)>) -> Seq<ComparisonView> {
    match extra {
        Some((col, value)) => seq![
            ComparisonView { col: col@, op: BinaryOp::Eq, value: *value },
        ],
        None => Seq::empty(),
    }
}

/// How a filtered count is answered from indexes alone.
pub enum CountPlan<'a> {
    /// Not from indexes: the rows have to be counted.
    Stream,
    /// By the entries of one covering range.
    Cover(Cover<'a>),
    /// By all rows less the entries of a covering range.
    AllBut(Cover<'a>),
    /// By one covering range less another.
    Complement { total: Cover<'a>, matching: Cover<'a> },
}

/// Plans an index-only count of the rows a filter lets through: by a covering
/// index, or by complement where one null-safe negated equality stands beside
/// an otherwise covered conjunction.
pub fn plan_count<'a, F: Fn(&Value) -> Vec<u8>>(
    indexes: &SortedMap<String, IndexDef>,
    open: &NameSet,
    table: &str,
    expr: &'a Expr,
    key: &F,
) -> (r: CountPlan<'a>)
    requires
        indexes.wf(),
        open.wf(),
        is_key_function(*key),
    ensures
        count_plan_is(r, indexes.entries@, open@, table@, *expr, *key),
{
    let mut whole: Vec<&'a Expr> = Vec::new();
    whole.push(expr);
    proof {
        assert(pointees(whole@) =~= seq![*expr]);
    }
    let direct = cover_conjuncts(indexes, open, table, &whole, None, key);
    if let Some(c) = direct {
        return CountPlan::Cover(c);
    }
    proof {
        assert(no_cover(indexes.entries@, open@, table@, seq![*expr], Seq::empty(), *key));
    }
    match crate::constraints::split_one_negated_eq(expr) {
        None => CountPlan::Stream,
        Some(n) => {
            let matching = cover_conjuncts(
                indexes,
                open,
                table,
                &n.rest,
                Some((n.col, n.lit)),
                key,
            );
            proof {
                assert(pointees(n.rest@).len() == n.rest@.len());
            }
            match matching {
                None => CountPlan::Stream,
                Some(m) => {
                    if n.rest.len() == 0 {
                        return CountPlan::AllBut(m);
                    }
                    match cover_conjuncts(indexes, open, table, &n.rest, None, key) {
                        None => CountPlan::Stream,
                        Some(total) => CountPlan::Complement { total, matching: m },
                    }
                },
            }
        },
    }
}

/// Whether no index covers a list of conjuncts with one more equality.
pub open spec fn no_cover<F: Fn(&Value) -> Vec<u8>>(
    es: Seq<(String, IndexDef)>,
    open: Set<Seq<char>>,
    table: Seq<char>,
    xs: Seq<Expr>,
    extra: Seq<ComparisonView>,
    key: F,
) -> bool {
    countable(key, xs, extra) matches Some(ms) ==> forall|k: int|
        0 <= k < es.len() ==> !index_covers(
            #[trigger] es[k],
            open,
            table,
            constraints(key, ms),
        )
}

/// Whether `c` covers a list of conjuncts with one more equality.
pub open spec fn is_cover<F: Fn(&Value) -> Vec<u8>>(
    c: Cover<'_>,
    es: Seq<(String, IndexDef)>,
    open: Set<Seq<char>>,
    table: Seq<char>,
    xs: Seq<Expr>,
    extra: Seq<ComparisonView>,
    key: F,
) -> bool {
    countable(key, xs, extra) matches Some(ms) && cover_is(Some(c), es, open, table, key, ms)
}

/// The comparison `col = lit` of a split negated equality.
pub open spec fn eq_comparison(n: (Seq<char>, Value)) -> Seq<ComparisonView> {
    seq![ComparisonView { col: n.0, op: BinaryOp::Eq, value: n.1 }]
}

/// Whether a count plan is the one that a filter calls for.
pub open spec fn count_plan_is<F: Fn(&Value) -> Vec<u8>>(
    p: CountPlan<'_>,
    es: Seq<(String, IndexDef)>,
    open: Set<Seq<char>>,
    table: Seq<char>,
    e: Expr,
    key: F,
) -> bool {
    let none = Seq::<ComparisonView>::empty();
    match p {
        CountPlan::Cover(c) => is_cover(c, es, open, table, seq![e], none, key),
        CountPlan::AllBut(m) => no_cover(es, open, table, seq![e], none, key) && (
        crate::constraints::apart(e) matches Some((rest, neg)) && neg.len() == 1 && rest.len() == 0
            && is_cover(m, es, open, table, rest, eq_comparison(neg[0]), key)),
        CountPlan::Complement { total, matching } => no_cover(es, open, table, seq![e], none, key)
            && (crate::constraints::apart(e) matches Some((rest, neg)) && neg.len() == 1
            && rest.len() > 0 && is_cover(
            matching,
            es,
            open,
            table,
            rest,
            eq_comparison(neg[0]),
            key,
        ) && is_cover(total, es, open, table, rest, none, key)),
        CountPlan::Stream => no_cover(es, open, table, seq![e], none, key) && match crate::constraints::apart(
            e,
        ) {
            Some((rest, neg)) => neg.len() == 1 ==> no_cover(
                es,
                open,
                table,
                rest,
                eq_comparison(neg[0]),
                key,
            ) || (rest.len() > 0 && no_cover(es, open, table, rest, none, key)),
            None => true,
        },
    }
}

/// The count by complement.
pub fn complement_count(total: usize, matching: usize) -> (r: usize)
    ensures
        r == (if matching <= total {
            total - matching
        } else {
            0
        }),
{
    if matching <= total {
        total - matching
    } else {
        0
    }
}

/// Whether one tuple of order keys precedes another: at the first place where
/// they differ its key is the smaller one.
pub open spec fn tuple_before(a: Seq<Seq<u8>>, b: Seq<Seq<u8>>) -> bool
    decreases a.len(),
{
    a.len() > 0 && b.len() > 0 && (bytes_lt(a[0], b[0]) || (a[0] == b[0] && tuple_before(
        a.drop_first(),
        b.drop_first(),
    )))
}

/// The order keys of a tuple of values.
pub open spec fn keys_of<F: Fn(&Value) -> Vec<u8>>(key: F, vs: Seq<Value>) -> Seq<Seq<u8>> {
    vs.map_values(|v: Value| order_key(key, v))
}

/// The order keys of the index entry that a row makes over some columns.
pub open spec fn entry_keys<F: Fn(&Value) -> Vec<u8>>(
    key: F,
    row: spec_fn(Seq<char>) -> Value,
    names: Seq<Seq<char>>,
) -> Seq<Seq<u8>> {
    names.map_values(|n: Seq<char>| order_key(key, row(n)))
}

/// Whether an entry lies at or behind a bound.
pub open spec fn at_or_behind<F: Fn(&Value) -> Vec<u8>>(
    key: F,
    entry: Seq<Seq<u8>>,
    b: Seq<Value>,
) -> bool {
    b.len() <= entry.len() && !tuple_before(entry.take(b.len() as int), keys_of(key, b))
}

/// Whether an entry lies at or ahead of a bound.
pub open spec fn at_or_ahead<F: Fn(&Value) -> Vec<u8>>(
    key: F,
    entry: Seq<Seq<u8>>,
    b: Seq<Value>,
) -> bool {
    b.len() <= entry.len() && !tuple_before(keys_of(key, b), entry.take(b.len() as int))
}

/// Whether an entry begins with a bound.
pub open spec fn begins_with<F: Fn(&Value) -> Vec<u8>>(
    key: F,
    entry: Seq<Seq<u8>>,
    b: Seq<Value>,
) -> bool {
    b.len() <= entry.len() && entry.take(b.len() as int) == keys_of(key, b)
}

proof fn lemma_tuple_prefix(a: Seq<Seq<u8>>, b: Seq<Seq<u8>>, n: int)
    requires
        0 <= n <= a.len(),
        n <= b.len(),
        forall|k: int| 0 <= k < n ==> #[trigger] a[k] == b[k],
    ensures
        tuple_before(a, b) == tuple_before(a.skip(n), b.skip(n)),
    decreases n,
{
    if n == 0 {
        assert(a.skip(0) =~= a);
        assert(b.skip(0) =~= b);
    } else {
        let x = a.drop_first();
        let y = b.drop_first();
        assert(a[0] == b[0]);
        assert forall|k: int| 0 <= k < n - 1 implies #[trigger] x[k] == y[k] by {
            assert(a[k + 1] == b[k + 1]);
        }
        lemma_tuple_prefix(x, y, n - 1);
        assert(x.skip(n - 1) =~= a.skip(n));
        assert(y.skip(n - 1) =~= b.skip(n));
        crate::bytes::lemma_bytes_lt_irrefl(a[0]);
    }
}

proof fn lemma_bound<F: Fn(&Value) -> Vec<u8>>(
    key: F,
    row: spec_fn(Seq<char>) -> Value,
    names: Seq<Seq<char>>,
    prefix: Seq<Value>,
    range: Option<Value>,
)
    requires
        bound(prefix, range).len() <= names.len(),
        forall|k: int|
            0 <= k < prefix.len() ==> order_key(key, row(names[k])) == order_key(
                key,
                #[trigger] prefix[k],
            ),
    ensures
        ({
            let b = bound(prefix, range);
            let t = entry_keys(key, row, names);
            let x = order_key(key, row(names[prefix.len() as int]));
            &&& at_or_behind(key, t, b) == (range matches Some(v) ==> !bytes_lt(
                x,
                order_key(key, v),
            ))
            &&& at_or_ahead(key, t, b) == (range matches Some(v) ==> !bytes_lt(
                order_key(key, v),
                x,
            ))
            &&& begins_with(key, t, b) == (range matches Some(v) ==> x == order_key(key, v))
        }),
{
    let b = bound(prefix, range);
    let n = prefix.len() as int;
    let t = entry_keys(key, row, names).take(b.len() as int);
    let kb = keys_of(key, b);
    let x = order_key(key, row(names[n]));
    assert forall|k: int| 0 <= k < n implies #[trigger] t[k] == kb[k] by {
        assert(b[k] == prefix[k]);
    }
    lemma_tuple_prefix(t, kb, n);
    lemma_tuple_prefix(kb, t, n);
    match range {
        Some(v) => {
            assert(t.skip(n) =~= seq![x]);
            assert(kb.skip(n) =~= seq![order_key(key, v)]);
            assert(t[n] == x);
            assert(kb[n] == order_key(key, v));
            assert(!tuple_before(t.skip(n).drop_first(), kb.skip(n).drop_first()));
            assert(!tuple_before(kb.skip(n).drop_first(), t.skip(n).drop_first()));
            if x == order_key(key, v) {
                assert(t =~= kb);
            }
        },
        None => {
            assert(t =~= kb);
        },
    }
}

proof fn lemma_pinned_between<F: Fn(&Value) -> Vec<u8>>(
    key: F,
    row: spec_fn(Seq<char>) -> Value,
    names: Seq<Seq<char>>,
    prefix: Seq<Value>,
    lo: Option<Value>,
    hi: Option<Value>,
    n: int,
)
    requires
        at_or_behind(key, entry_keys(key, row, names), bound(prefix, lo)),
        at_or_ahead(key, entry_keys(key, row, names), bound(prefix, hi)),
        0 <= n <= prefix.len(),
    ensures
        forall|k: int|
            0 <= k < n ==> order_key(key, row(names[k])) == order_key(key, #[trigger] prefix[k]),
    decreases n,
{
    if n > 0 {
        lemma_pinned_between(key, row, names, prefix, lo, hi, n - 1);
        let t = entry_keys(key, row, names);
        let m = n - 1;
        let a = bound(prefix, lo);
        let b = bound(prefix, hi);
        let ta = t.take(a.len() as int);
        let tb = t.take(b.len() as int);
        let ka = keys_of(key, a);
        let kb = keys_of(key, b);
        assert forall|k: int| 0 <= k < m implies #[trigger] ta[k] == ka[k] by {
            assert(a[k] == prefix[k]);
        }
        assert forall|k: int| 0 <= k < m implies #[trigger] kb[k] == tb[k] by {
            assert(b[k] == prefix[k]);
        }
        lemma_tuple_prefix(ta, ka, m);
        lemma_tuple_prefix(kb, tb, m);
        let x = order_key(key, row(names[m]));
        let v = order_key(key, prefix[m]);
        assert(ta.skip(m)[0] == x);
        assert(ka.skip(m)[0] == v);
        assert(tb.skip(m)[0] == x);
        assert(kb.skip(m)[0] == v);
        crate::bytes::lemma_bytes_lt_total(x, v);
    }
}

proof fn lemma_only_eq(names: Seq<Seq<char>>, cs: Seq<ConstraintView>, i: int)
    requires
        0 <= i <= names.len(),
    ensures
        i <= only_eq_from(names, cs, i) <= names.len(),
        forall|k: int| i <= k < only_eq_from(names, cs, i) ==> only_eq(cs, #[trigger] names[k]),
    decreases names.len() - i,
{
    if i < names.len() && only_eq(cs, names[i]) {
        lemma_only_eq(names, cs, i + 1);
    }
}

/// An index scan never loses a match: the entry of a row whose order keys
/// satisfy every comparison of the filter lies between the bounds of the scan.
pub proof fn scan_loses_no_match<F: Fn(&Value) -> Vec<u8>>(
    key: F,
    row: spec_fn(Seq<char>) -> Value,
    ms: Seq<ComparisonView>,
    names: Seq<Seq<char>>,
    order: Option<OrderView>,
)
    requires
        satisfies_all(key, row, ms),
    ensures
        scan_for(names, constraints(key, ms), order) matches Some(s) ==> {
            &&& s.start matches Some(b) ==> at_or_behind(key, entry_keys(key, row, names), b)
            &&& s.end matches Some(b) ==> at_or_ahead(key, entry_keys(key, row, names), b)
        },
{
    let cs = constraints(key, ms);
    let i = eq_run(names, cs);
    lemma_run(names, cs, 0);
    let prefix = eq_values(names, cs, i);
    let range = range_at(names, cs, i);
    assert forall|k: int| 0 <= k < prefix.len() implies order_key(key, row(names[k])) == order_key(
        key,
        #[trigger] prefix[k],
    ) by {
        assert(pinned_by_eq(cs, names[k]));
        lemma_place_of_col(cs, names[k]);
        constraints_lose_no_match(key, row, ms, place_of_col(cs, names[k]));
    }
    if range is Some {
        lemma_place_of_col(cs, names[i]);
        constraints_lose_no_match(key, row, ms, place_of_col(cs, names[i]));
    }
    lemma_bound(key, row, names, prefix, lo_of(range));
    lemma_bound(key, row, names, prefix, hi_of(range));
}

/// A read by primary key never loses a match: the key of a row whose order
/// keys satisfy every comparison of the filter is the one point read, and lies
/// in the range scanned.
pub proof fn key_read_loses_no_match<F: Fn(&Value) -> Vec<u8>>(
    key: F,
    row: spec_fn(Seq<char>) -> Value,
    ms: Seq<ComparisonView>,
    pk: Seq<Seq<char>>,
)
    requires
        satisfies_all(key, row, ms),
    ensures
        point_values(pk, constraints(key, ms)) matches Some(t) ==> keys_of(key, t) == entry_keys(
            key,
            row,
            pk,
        ),
        pk_range(pk, constraints(key, ms)) matches Some((start, end)) ==> at_or_behind(
            key,
            entry_keys(key, row, pk),
            start,
        ) && at_or_ahead(key, entry_keys(key, row, pk), end),
{
    let cs = constraints(key, ms);
    if let Some(t) = point_values(pk, cs) {
        assert forall|k: int| 0 <= k < pk.len() implies order_key(key, #[trigger] t[k])
            == order_key(key, row(pk[k])) by {
            assert(only_eq(cs, pk[k]));
            lemma_place_of_col(cs, pk[k]);
            constraints_lose_no_match(key, row, ms, place_of_col(cs, pk[k]));
        }
        assert(keys_of(key, t) =~= entry_keys(key, row, pk));
    }
    let i = eq_run(pk, cs);
    lemma_run(pk, cs, 0);
    if 0 < i < pk.len() {
        scan_loses_no_match(key, row, ms, pk, None);
    }
}

proof fn lemma_every_constraint_is_used(names: Seq<Seq<char>>, cs: Seq<ConstraintView>, p: int)
    requires
        names.no_duplicates(),
        cs.len() <= names.len(),
        forall|k: int| 0 <= k < cs.len() ==> constraint_on(cs, #[trigger] names[k]) is Some,
        0 <= p < cs.len(),
    ensures
        exists|k: int| 0 <= k < cs.len() && #[trigger] names[k] == cs[p].col,
{
    let n = cs.len() as int;
    let places = Seq::new(cs.len(), |k: int| place_of_col(cs, names[k]));
    assert forall|k: int| 0 <= k < n implies 0 <= #[trigger] places[k] < n && cs[places[k]].col
        == names[k] by {
        assert(constraint_on(cs, names[k]) is Some);
        lemma_place_of_col(cs, names[k]);
    }
    assert(places.no_duplicates()) by {
        assert forall|i: int, j: int| 0 <= i < n && 0 <= j < n && i != j implies places[i]
            != places[j] by {
            assert(names[i] != names[j]);
        }
    }
    places.unique_seq_to_set();
    vstd::set_lib::lemma_int_range(0, n);
    let all = vstd::set_lib::set_int_range(0, n);
    assert(places.to_set().subset_of(all)) by {
        assert forall|q: int| places.to_set().contains(q) implies all.contains(q) by {
            let k = choose|k: int| 0 <= k < places.len() && places[k] == q;
            assert(0 <= places[k] < n);
        }
    }
    vstd::seq_lib::seq_to_set_is_finite(places);
    vstd::set_lib::lemma_subset_equality(places.to_set(), all);
    assert(places.to_set().contains(p));
    let k = choose|k: int| 0 <= k < places.len() && places[k] == p;
    assert(names[k] == cs[p].col);
}

/// Whether an entry lies between the bounds of a cover, less the entries that
/// begin with a bound to be left out.
pub open spec fn entry_counts<F: Fn(&Value) -> Vec<u8>>(
    key: F,
    entry: Seq<Seq<u8>>,
    start: Seq<Value>,
    end: Seq<Value>,
    skip_start: bool,
    skip_end: bool,
) -> bool {
    &&& at_or_behind(key, entry, start)
    &&& at_or_ahead(key, entry, end)
    &&& skip_start ==> !begins_with(key, entry, start)
    &&& skip_end ==> !begins_with(key, entry, end)
}

proof fn lemma_no_strict_pin<F: Fn(&Value) -> Vec<u8>>(
    key: F,
    ms: Seq<ComparisonView>,
    names: Seq<Seq<char>>,
    b: Seq<Value>,
    op: BinaryOp,
)
    requires
        op == BinaryOp::Gt || op == BinaryOp::Lt,
        0 < b.len() <= names.len(),
        only_eq(constraints(key, ms), names[b.len() - 1]),
    ensures
        !strict_bound(key, ms, names, b, op),
{
    let cs = constraints(key, ms);
    let col = names[b.len() - 1];
    lemma_constraints(key, ms);
    lemma_place_of_col(cs, col);
    assert(sums_up(key, ms, cs[place_of_col(cs, col)]));
}

proof fn lemma_match_is_counted<F: Fn(&Value) -> Vec<u8>>(
    key: F,
    row: spec_fn(Seq<char>) -> Value,
    ms: Seq<ComparisonView>,
    names: Seq<Seq<char>>,
)
    requires
        satisfies_all(key, row, ms),
        cover_for(names, constraints(key, ms)) is Some,
    ensures
        ({
            let (start, end) = cover_for(names, constraints(key, ms))->0;
            entry_counts(
                key,
                entry_keys(key, row, names),
                start,
                end,
                strict_bound(key, ms, names, start, BinaryOp::Gt),
                strict_bound(key, ms, names, end, BinaryOp::Lt),
            )
        }),
{
    let cs = constraints(key, ms);
    let i = only_eq_from(names, cs, 0);
    lemma_only_eq(names, cs, 0);
    let prefix = eq_values(names, cs, i);
    let range = pure_range_at(names, cs, i);
    let (start, end) = cover_for(names, cs)->0;
    assert forall|k: int| 0 <= k < prefix.len() implies order_key(key, row(names[k])) == order_key(
        key,
        #[trigger] prefix[k],
    ) by {
        assert(only_eq(cs, names[k]));
        lemma_place_of_col(cs, names[k]);
        constraints_lose_no_match(key, row, ms, place_of_col(cs, names[k]));
    }
    if range is Some {
        lemma_place_of_col(cs, names[i]);
        constraints_lose_no_match(key, row, ms, place_of_col(cs, names[i]));
    }
    lemma_bound(key, row, names, prefix, lo_of(range));
    lemma_bound(key, row, names, prefix, hi_of(range));
    let x = order_key(key, row(names[i]));
    crate::bytes::lemma_bytes_lt_irrefl(x);
    if lo_of(range) is None && start.len() > 0 {
        assert(only_eq(cs, names[start.len() - 1]));
        lemma_no_strict_pin(key, ms, names, start, BinaryOp::Gt);
    }
    if hi_of(range) is None && end.len() > 0 {
        assert(only_eq(cs, names[end.len() - 1]));
        lemma_no_strict_pin(key, ms, names, end, BinaryOp::Lt);
    }
    if strict_bound(key, ms, names, start, BinaryOp::Gt) {
        let k = choose|k: int|
            0 <= k < ms.len() && (#[trigger] ms[k]).col == names[start.len() - 1] && ms[k].op
                == BinaryOp::Gt && order_key(key, ms[k].value) == order_key(key, start.last());
        assert(satisfies(key, row, ms[k]));
    }
    if strict_bound(key, ms, names, end, BinaryOp::Lt) {
        let k = choose|k: int|
            0 <= k < ms.len() && (#[trigger] ms[k]).col == names[end.len() - 1] && ms[k].op
                == BinaryOp::Lt && order_key(key, ms[k].value) == order_key(key, end.last());
        assert(satisfies(key, row, ms[k]));
    }
}

proof fn lemma_counted_is_match<F: Fn(&Value) -> Vec<u8>>(
    key: F,
    row: spec_fn(Seq<char>) -> Value,
    ms: Seq<ComparisonView>,
    names: Seq<Seq<char>>,
    m: int,
)
    requires
        names.no_duplicates(),
        equalities_agree(key, ms),
        0 <= m < ms.len(),
        compares(ms[m].op),
        cover_for(names, constraints(key, ms)) is Some,
        ({
            let (start, end) = cover_for(names, constraints(key, ms))->0;
            entry_counts(
                key,
                entry_keys(key, row, names),
                start,
                end,
                strict_bound(key, ms, names, start, BinaryOp::Gt),
                strict_bound(key, ms, names, end, BinaryOp::Lt),
            )
        }),
    ensures
        satisfies(key, row, ms[m]),
{
    let cs = constraints(key, ms);
    let i = only_eq_from(names, cs, 0);
    lemma_only_eq(names, cs, 0);
    let prefix = eq_values(names, cs, i);
    let range = pure_range_at(names, cs, i);
    let (start, end) = cover_for(names, cs)->0;
    lemma_pinned_between(
        key,
        row,
        names,
        prefix,
        lo_of(range),
        hi_of(range),
        prefix.len() as int,
    );
    lemma_bound(key, row, names, prefix, lo_of(range));
    lemma_bound(key, row, names, prefix, hi_of(range));
    lemma_constraints(key, ms);
    let col = ms[m].col;
    let p = place_of_col(cs, col);
    assert(constraint_on(cs, col) is Some);
    lemma_place_of_col(cs, col);
    assert forall|k: int| 0 <= k < cs.len() implies constraint_on(
        cs,
        #[trigger] names[k],
    ) is Some by {
        if k < i {
            assert(only_eq(cs, names[k]));
        }
    }
    lemma_every_constraint_is_used(names, cs, p);
    let k = choose|k: int| 0 <= k < cs.len() && #[trigger] names[k] == cs[p].col;
    let c = cs[p];
    assert(sums_up(key, ms, c));
    let x = order_key(key, row(col));
    let v = order_key(key, ms[m].value);
    if k < i {
        assert(only_eq(cs, names[k]));
        let w = choose|w: int|
            0 <= w < ms.len() && (#[trigger] ms[w]).col == c.col && ms[w].op == BinaryOp::Eq
                && ms[w].value == c.eq->0;
        assert(prefix[k] == c.eq->0);
        assert(order_key(key, ms[w].value) == order_key(key, ms[m].value));
    } else {
        assert(k == i && range == Some(c));
        if is_lower(ms[m].op) {
            let lo = order_key(key, c.lo->0);
            crate::bytes::lemma_bytes_lt_total(lo, v);
            crate::bytes::lemma_bytes_lt_total(x, lo);
            if bytes_lt(v, lo) && bytes_lt(lo, x) {
                crate::bytes::lemma_bytes_lt_trans(v, lo, x);
            }
            if ms[m].op == BinaryOp::Gt && v == lo {
                assert(start.last() == c.lo->0);
                assert(strict_bound(key, ms, names, start, BinaryOp::Gt));
            }
        } else {
            let hi = order_key(key, c.hi->0);
            crate::bytes::lemma_bytes_lt_total(hi, v);
            crate::bytes::lemma_bytes_lt_total(x, hi);
            if bytes_lt(hi, v) && bytes_lt(x, hi) {
                crate::bytes::lemma_bytes_lt_trans(x, hi, v);
            }
            if ms[m].op == BinaryOp::Lt && v == hi {
                assert(end.last() == c.hi->0);
                assert(strict_bound(key, ms, names, end, BinaryOp::Lt));
            }
        }
    }
}

/// A covered count is exact: the entries that a cover counts are those of the
/// rows whose order keys satisfy every comparison of the filter, no more and
/// no fewer.
pub proof fn covered_count_is_exact<F: Fn(&Value) -> Vec<u8>>(
    key: F,
    row: spec_fn(Seq<char>) -> Value,
    ms: Seq<ComparisonView>,
    names: Seq<Seq<char>>,
)
    requires
        names.no_duplicates(),
        equalities_agree(key, ms),
        forall|k: int| 0 <= k < ms.len() ==> compares((#[trigger] ms[k]).op),
    ensures
        cover_for(names, constraints(key, ms)) matches Some((start, end)) ==> (satisfies_all(
            key,
            row,
            ms,
        ) <==> entry_counts(
            key,
            entry_keys(key, row, names),
            start,
            end,
            strict_bound(key, ms, names, start, BinaryOp::Gt),
            strict_bound(key, ms, names, end, BinaryOp::Lt),
        )),
{
    if let Some((start, end)) = cover_for(names, constraints(key, ms)) {
        if satisfies_all(key, row, ms) {
            lemma_match_is_counted(key, row, ms, names);
        }
        if entry_counts(
            key,
            entry_keys(key, row, names),
            start,
            end,
            strict_bound(key, ms, names, start, BinaryOp::Gt),
            strict_bound(key, ms, names, end, BinaryOp::Lt),
        ) {
            assert forall|m: int| 0 <= m < ms.len() implies satisfies(
                key,
                row,
                #[trigger] ms[m],
            ) by {
                lemma_counted_is_match(key, row, ms, names, m);
            }
        }
    }
}

} // verus!
