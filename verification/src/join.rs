//! Joins: pairing the rows of several tables, with the right side of an
//! equi-join bucketed by its key.

use vstd::prelude::*;

use crate::ast::BinaryOp;
use crate::ast::Expr;
use crate::ast::Join;
use crate::ast::JoinKind;
use crate::ast::Select;
use crate::constraints::pointees;
use crate::error::EngineError;
use crate::execute::is_decider;
use crate::execute::matches_filter;
use crate::execute::passes;
use crate::grouping::all_docs;
use crate::model::copy_document;
use crate::model::copy_value;
use crate::model::doc_view;
use crate::model::doc_wf;
use crate::model::lemma_doc_view;
use crate::model::value_view;
use crate::model::value_wf;
use crate::model::Fields;
use crate::model::ValueView;
use crate::order::as_places;
use crate::order::places;
use crate::projection::top_field;
use crate::projection::NameSet;
use crate::results::docs_wf;
use crate::search::collect_conjuncts;
use crate::search::conjuncts;
use crate::sorted_map::holds_key;
use crate::sorted_map::lemma_entry_at;
use crate::sorted_map::SortedMap;
use crate::text::cat;
use crate::text::has_prefix;
use crate::text::split_once;
use crate::text::str_eq;
use crate::text::strip_prefix;
use crate::value::Document;
use crate::value::Value;

verus! {

/// The aliases that a join's rows carry their sides under: hidden from `*`.
pub open spec fn hidden_keys(sel: Select) -> Set<Seq<char>> {
    if sel.joins@.len() == 0 {
        Set::empty()
    } else {
        Set::new(|n: Seq<char>| n == sel.from_alias@ || is_join_alias(sel.joins@, n))
    }
}

/// Whether a name is the alias of a joined table.
pub open spec fn is_join_alias(joins: Seq<Join>, n: Seq<char>) -> bool {
    exists|i: int| 0 <= i < joins.len() && (#[trigger] joins[i]).alias@ == n
}

/// The aliases that are hidden from `*`; none without a join.
pub fn join_hidden_keys(sel: &Select) -> (r: NameSet)
    ensures
        r.wf(),
        r@ == hidden_keys(*sel),
{
    let mut out = NameSet::new();
    if sel.joins.len() == 0 {
        proof {
            assert(out@ =~= hidden_keys(*sel));
        }
        return out;
    }
    out.add_name(sel.from_alias.clone());
    let mut i: usize = 0;
    while i < sel.joins.len()
        invariant
            out.wf(),
            i <= sel.joins@.len(),
            forall|n: Seq<char>| #[trigger]
                out@.contains(n) <==> n == sel.from_alias@ || is_join_alias(
                    sel.joins@.take(i as int),
                    n,
                ),
        decreases sel.joins@.len() - i,
    {
        let ghost before = out@;
        let ghost js = sel.joins@.take(i as int);
        let ghost now = sel.joins@.take(i + 1);
        out.add_name(sel.joins[i].alias.clone());
        proof {
            assert forall|n: Seq<char>| #[trigger]
                out@.contains(n) <==> n == sel.from_alias@ || is_join_alias(now, n) by {
                assert(before.contains(n) <==> n == sel.from_alias@ || is_join_alias(js, n));
                if is_join_alias(js, n) {
                    let k = choose|k: int| 0 <= k < js.len() && (#[trigger] js[k]).alias@ == n;
                    assert(now[k].alias@ == n);
                }
                if is_join_alias(now, n) {
                    let k = choose|k: int| 0 <= k < now.len() && (#[trigger] now[k]).alias@ == n;
                    if k < i {
                        assert(js[k].alias@ == n);
                    }
                }
                assert(now[i as int].alias@ == sel.joins@[i as int].alias@);
            }
        }
        i = i + 1;
    }
    proof {
        assert(sel.joins@.take(sel.joins@.len() as int) =~= sel.joins@);
        assert(out@ =~= hidden_keys(*sel));
    }
    out
}

/// The sides of a joined row: each alias with what its row holds, nothing for
/// the missing side of an outer join.
pub type Sides = Seq<(Seq<char>, Option<Fields>)>;

/// The present sides as documents of their own under their aliases.
pub open spec fn qualified_sides(parts: Sides) -> Fields
    decreases parts.len(),
{
    if parts.len() == 0 {
        Map::empty()
    } else {
        let m = qualified_sides(parts.drop_last());
        match parts.last().1 {
            Some(d) => m.insert(parts.last().0, ValueView::Document(d)),
            None => m,
        }
    }
}

/// Fields with the sides' own fields added: what is there already stays.
pub open spec fn with_sides(m: Fields, parts: Sides) -> Fields
    decreases parts.len(),
{
    if parts.len() == 0 {
        m
    } else {
        let before = with_sides(m, parts.drop_last());
        match parts.last().1 {
            Some(d) => d.union_prefer_right(before),
            None => before,
        }
    }
}

/// A joined row as one document: each present side is there under its alias,
/// and its fields also on their own, the first side winning a clash.
pub open spec fn merged(parts: Sides) -> Fields {
    with_sides(qualified_sides(parts), parts)
}

/// Sides by what each holds.
pub open spec fn sides_view(parts: Seq<(&String, Option<&Document>)>) -> Sides {
    parts.map_values(|p: (&String, Option<&Document>)| (p.0@, opt_doc(p.1)))
}

/// An optional document by what it holds.
pub open spec fn opt_doc(d: Option<&Document>) -> Option<Fields> {
    match d {
        Some(x) => Some(doc_view(*x)),
        None => None,
    }
}

/// Whether the documents of all sides have their fields in order.
pub open spec fn sides_wf(parts: Seq<(&String, Option<&Document>)>) -> bool {
    forall|i: int| 0 <= i < parts.len() && (#[trigger] parts[i]).1 is Some ==> doc_wf(*parts[i].1->0)
}

fn add_missing(row: &mut Document, d: &Document)
    requires
        doc_wf(*old(row)),
        doc_wf(*d),
    ensures
        doc_wf(*final(row)),
        doc_view(*final(row)) == doc_view(*d).union_prefer_right(doc_view(*old(row))),
{
    let ghost start = doc_view(*row);
    let ghost es = d.fields.entries@;
    let ghost m = doc_view(*d);
    let mut i: usize = 0;
    while i < d.fields.len()
        invariant
            doc_wf(*row),
            doc_wf(*d),
            es == d.fields.entries@,
            m == doc_view(*d),
            i <= es.len(),
            forall|n: Seq<char>| #[trigger]
                doc_view(*row).dom().contains(n) <==> start.dom().contains(n) || exists|j: int|
                    0 <= j < i && (#[trigger] es[j]).0@ == n,
            forall|n: Seq<char>| #[trigger]
                doc_view(*row).dom().contains(n) ==> doc_view(*row)[n] == (if start.dom().contains(n) {
                    start[n]
                } else {
                    m[n]
                }),
        decreases es.len() - i,
    {
        let ghost before = doc_view(*row);
        let name = d.fields.key_at(i);
        let ghost k = name@;
        proof {
            lemma_entry_at(es, i as int);
            lemma_doc_view(*d);
            assert(m[k] == value_view(es[i as int].1));
            assert(value_wf(es[i as int].1));
        }
        if row.field(name.as_str()).is_none() {
            row.put_field(name.clone(), copy_value(d.fields.value_at(i)));
        }
        proof {
            let now = doc_view(*row);
            assert forall|n: Seq<char>| #[trigger]
                now.dom().contains(n) <==> start.dom().contains(n) || exists|j: int|
                    0 <= j < i + 1 && (#[trigger] es[j]).0@ == n by {
                assert(before.dom().contains(n) <==> start.dom().contains(n) || exists|j: int|
                    0 <= j < i && (#[trigger] es[j]).0@ == n);
                assert(es[i as int].0@ == k);
            }
            assert forall|n: Seq<char>| #[trigger] now.dom().contains(n) implies now[n] == (
            if start.dom().contains(n) {
                start[n]
            } else {
                m[n]
            }) by {
                if n != k || before.dom().contains(k) {
                    assert(before.dom().contains(n));
                } else {
                    assert(before.dom().contains(k) <==> start.dom().contains(k) || exists|j: int|
                        0 <= j < i && (#[trigger] es[j]).0@ == k);
                }
            }
        }
        i = i + 1;
    }
    proof {
        let want = m.union_prefer_right(start);
        assert forall|n: Seq<char>| doc_view(*row).dom().contains(n) <==> want.dom().contains(n) by {
            assert(m.dom().contains(n) <==> holds_key(es, n));
        }
        assert(doc_view(*row) =~= want);
    }
}

/// Flattens a joined row into one document.
pub fn merge_tuple(parts: &Vec<(&String, Option<&Document>)>) -> (r: Document)
    requires
        sides_wf(parts@),
    ensures
        doc_wf(r),
        doc_view(r) == merged(sides_view(parts@)),
{
    let ghost ps = sides_view(parts@);
    let mut row = Document::new();
    let mut i: usize = 0;
    proof {
        assert(ps.take(0) =~= Seq::<(Seq<char>, Option<Fields>)>::empty());
    }
    while i < parts.len()
        invariant
            sides_wf(parts@),
            ps == sides_view(parts@),
            doc_wf(row),
            i <= parts@.len(),
            doc_view(row) == qualified_sides(ps.take(i as int)),
        decreases parts@.len() - i,
    {
        proof {
            assert(ps.take(i + 1).drop_last() =~= ps.take(i as int));
            assert(ps.take(i + 1).last() == (parts@[i as int].0@, opt_doc(parts@[i as int].1)));
        }
        if let Some(d) = parts[i].1 {
            row.put_field(parts[i].0.clone(), Value::Document(copy_document(d)));
        }
        i = i + 1;
    }
    let ghost base = doc_view(row);
    let mut j: usize = 0;
    proof {
        assert(ps.take(ps.len() as int) =~= ps);
    }
    while j < parts.len()
        invariant
            sides_wf(parts@),
            ps == sides_view(parts@),
            doc_wf(row),
            j <= parts@.len(),
            doc_view(row) == with_sides(base, ps.take(j as int)),
        decreases parts@.len() - j,
    {
        proof {
            assert(ps.take(j + 1).drop_last() =~= ps.take(j as int));
            assert(ps.take(j + 1).last() == (parts@[j as int].0@, opt_doc(parts@[j as int].1)));
        }
        if let Some(d) = parts[j].1 {
            add_missing(&mut row, d);
        }
        j = j + 1;
    }
    proof {
        assert(ps.take(ps.len() as int) =~= ps);
    }
    row
}

/// An equality of a column of another table with a column of `ra`: the other
/// column, and the column of `ra` without its alias.
pub open spec fn equi_pair(x: Seq<char>, y: Seq<char>, ra: Seq<char>) -> Option<(Seq<char>, Seq<char>)> {
    if has_prefix(y, ra + "."@) && top_field(x) != ra {
        Some((x, y.skip((ra + "."@).len() as int)))
    } else {
        None
    }
}

/// The join key that one conjunct gives, if it gives one.
pub open spec fn equi_of(e: Expr, ra: Seq<char>) -> Option<(Seq<char>, Seq<char>)> {
    match e {
        Expr::Binary { op, left, right } => if op == BinaryOp::Eq {
            match (*left, *right) {
                (Expr::Column(a), Expr::Column(b)) => match equi_pair(a@, b@, ra) {
                    Some(p) => Some(p),
                    None => equi_pair(b@, a@, ra),
                },
                _ => None,
            }
        } else {
            None
        },
        _ => None,
    }
}

/// The first join key among conjuncts.
pub open spec fn first_equi(es: Seq<Expr>, ra: Seq<char>) -> Option<(Seq<char>, Seq<char>)>
    decreases es.len(),
{
    if es.len() == 0 {
        None
    } else {
        match equi_of(es[0], ra) {
            Some(p) => Some(p),
            None => first_equi(es.skip(1), ra),
        }
    }
}

/// The join key of an `ON` condition, if it has one.
pub open spec fn equi_key(on: Option<Expr>, ra: Seq<char>) -> Option<(Seq<char>, Seq<char>)> {
    match on {
        Some(e) => first_equi(conjuncts(e), ra),
        None => None,
    }
}

/// A pair of paths by their characters.
pub open spec fn pair_view(p: Option<(String, String)>) -> Option<(Seq<char>, Seq<char>)> {
    match p {
        Some(x) => Some((x.0@, x.1@)),
        None => None,
    }
}

fn pair_of(x: &String, y: &String, ra: &str) -> (r: Option<(String, String)>)
    ensures
        pair_view(r) == equi_pair(x@, y@, ra@),
{
    let prefix = cat(ra, ".");
    match strip_prefix(y.as_str(), prefix.as_str()) {
        None => None,
        Some(rest) => {
            let head = head_of(x);
            if str_eq(head.as_str(), ra) {
                None
            } else {
                Some((x.clone(), rest))
            }
        },
    }
}

fn head_of(path: &String) -> (r: String)
    ensures
        r@ == top_field(path@),
{
    proof {
        crate::text::lemma_first_of(path@, '.');
    }
    match split_once(path.as_str(), '.') {
        Some((head, _)) => head,
        None => {
            proof {
                assert(path@.take(path@.len() as int) =~= path@);
            }
            path.clone()
        },
    }
}

/// The equi-join key of an `ON` condition: a column of the rows so far, and the
/// column of the joined table `ra` that it has to equal.
pub fn equi_key_paths(on: &Option<Expr>, ra: &str) -> (r: Option<(String, String)>)
    ensures
        pair_view(r) == equi_key(*on, ra@),
{
    match on {
        None => None,
        Some(e) => {
            let mut cs: Vec<&Expr> = Vec::new();
            proof {
                assert(pointees(cs@) =~= Seq::<Expr>::empty());
            }
            collect_conjuncts(e, &mut cs);
            let ghost es = conjuncts(*e);
            proof {
                assert(pointees(cs@) =~= es);
                assert(es.skip(0) =~= es);
            }
            let mut i: usize = 0;
            while i < cs.len()
                invariant
                    es == conjuncts(*e),
                    *on == Some(*e),
                    pointees(cs@) == es,
                    i <= cs@.len(),
                    first_equi(es, ra@) == first_equi(es.skip(i as int), ra@),
                decreases cs@.len() - i,
            {
                proof {
                    assert(es[i as int] == *cs@[i as int]);
                    assert(es.skip(i as int)[0] == es[i as int]);
                    assert(es.skip(i as int).skip(1) =~= es.skip(i + 1));
                }
                if let Expr::Binary { op, left, right } = cs[i] {
                    if *op == BinaryOp::Eq {
                        if let Expr::Column(a) = &**left {
                            if let Expr::Column(b) = &**right {
                                if let Some(p) = pair_of(a, b, ra) {
                                    return Some(p);
                                }
                                if let Some(p) = pair_of(b, a, ra) {
                                    return Some(p);
                                }
                            }
                        }
                    }
                }
                i = i + 1;
            }
            proof {
                assert(es.skip(i as int).len() == 0);
            }
            None
        },
    }
}

/// What a call gave as the join key of a document that holds `m`.
pub open spec fn gives_key<H: Fn(&Document, &String) -> Option<Vec<u8>>>(
    h: H,
    m: Fields,
    path: Seq<char>,
    r: Option<Seq<u8>>,
) -> bool {
    exists|d: Document, p: String, k: Option<Vec<u8>>| #[trigger]
        call_ensures(h, (&d, &p), k) && doc_view(d) == m && p@ == path && opt_bytes(k) == r
}

/// Optional bytes.
pub open spec fn opt_bytes(k: Option<Vec<u8>>) -> Option<Seq<u8>> {
    match k {
        Some(x) => Some(x@),
        None => None,
    }
}

/// The join key of a document: the bucket of what is at a path, nothing where
/// that equals nothing.
pub open spec fn join_key<H: Fn(&Document, &String) -> Option<Vec<u8>>>(h: H, m: Fields, path: Seq<char>) -> Option<
    Seq<u8>,
> {
    choose|r: Option<Seq<u8>>| gives_key(h, m, path, r)
}

/// Whether a function gives join keys, always the same for documents that hold
/// the same.
pub open spec fn is_join_keyer<H: Fn(&Document, &String) -> Option<Vec<u8>>>(h: H) -> bool {
    &&& forall|d: &Document, p: &String| call_requires(h, (d, p))
    &&& forall|
        a: &Document,
        b: &Document,
        p: &String,
        q: &String,
        x: Option<Vec<u8>>,
        y: Option<Vec<u8>>,
    |
        #![trigger call_ensures(h, (a, p), x), call_ensures(h, (b, q), y)]
        doc_view(*a) == doc_view(*b) && p@ == q@ && call_ensures(h, (a, p), x) && call_ensures(
            h,
            (b, q),
            y,
        ) ==> opt_bytes(x) == opt_bytes(y)
}

fn key_at_path<H: Fn(&Document, &String) -> Option<Vec<u8>>>(h: &H, d: &Document, path: &String) -> (r:
    Option<Vec<u8>>)
    requires
        is_join_keyer(*h),
    ensures
        opt_bytes(r) == join_key(*h, doc_view(*d), path@),
{
    let r = h(d, path);
    proof {
        let m = doc_view(*d);
        assert(call_ensures(*h, (d, path), r));
        assert(gives_key(*h, m, path@, opt_bytes(r)));
        let c = join_key(*h, m, path@);
        assert(gives_key(*h, m, path@, c));
        let (o, p, k) = choose|o: Document, p: String, k: Option<Vec<u8>>| #[trigger]
            call_ensures(*h, (&o, &p), k) && doc_view(o) == m && p@ == path@ && opt_bytes(k) == c;
        assert(call_ensures(*h, (&o, &p), k));
    }
    r
}

/// The places of keys that are `key`, in order.
pub open spec fn places_with(keys: Seq<Option<Seq<u8>>>, key: Seq<u8>) -> Seq<int>
    decreases keys.len(),
{
    if keys.len() == 0 {
        Seq::empty()
    } else if keys.last() == Some(key) {
        places_with(keys.drop_last(), key).push(keys.len() - 1)
    } else {
        places_with(keys.drop_last(), key)
    }
}

/// The keys of the rows on the right.
pub open spec fn right_keys<H: Fn(&Document, &String) -> Option<Vec<u8>>>(
    h: H,
    right: Seq<Fields>,
    path: Seq<char>,
) -> Seq<Option<Seq<u8>>> {
    right.map_values(|m: Fields| join_key(h, m, path))
}

/// The rows on the right that a row on the left is checked against: where both
/// sides have a join key, those of the same key, otherwise all.
pub open spec fn candidates<H: Fn(&Document, &String) -> Option<Vec<u8>>>(
    h: H,
    equi: Option<(Seq<char>, Seq<char>)>,
    left: Fields,
    right: Seq<Fields>,
) -> Seq<int> {
    match equi {
        None => places(right.len()),
        Some((l, r)) => match join_key(h, left, l) {
            None => places(right.len()),
            Some(key) => places_with(right_keys(h, right, r), key),
        },
    }
}

/// The rows on the right by join key.
pub struct Buckets {
    pub places: SortedMap<Vec<u8>, Vec<usize>>,
}

/// Whether buckets hold the places of keys.
pub open spec fn holds_places(b: Map<Seq<u8>, Vec<usize>>, keys: Seq<Option<Seq<u8>>>) -> bool {
    &&& forall|k: Seq<u8>| #[trigger]
        b.dom().contains(k) ==> as_places(b[k]@) == places_with(keys, k)
    &&& forall|k: Seq<u8>| !(#[trigger] b.dom().contains(k)) ==> places_with(keys, k).len() == 0
}

fn bucket_rows<H: Fn(&Document, &String) -> Option<Vec<u8>>>(
    h: &H,
    right: &Vec<Document>,
    path: &String,
) -> (r: Buckets)
    requires
        is_join_keyer(*h),
    ensures
        r.places.wf(),
        holds_places(r.places@, right_keys(*h, all_docs(right@), path@)),
        forall|k: Seq<u8>, i: int|
            r.places@.dom().contains(k) && 0 <= i < r.places@[k]@.len() ==> #[trigger] r.places@[k]@[i]
                < right@.len(),
{
    let ghost keys = right_keys(*h, all_docs(right@), path@);
    let mut places_of: SortedMap<Vec<u8>, Vec<usize>> = SortedMap::new();
    let mut i: usize = 0;
    proof {
        assert(keys.take(0) =~= Seq::<Option<Seq<u8>>>::empty());
    }
    while i < right.len()
        invariant
            is_join_keyer(*h),
            keys == right_keys(*h, all_docs(right@), path@),
            places_of.wf(),
            i <= right@.len(),
            holds_places(places_of@, keys.take(i as int)),
            forall|k: Seq<u8>, j: int|
                places_of@.dom().contains(k) && 0 <= j < places_of@[k]@.len()
                    ==> #[trigger] places_of@[k]@[j] < i,
        decreases right@.len() - i,
    {
        let ghost now = keys.take(i + 1);
        let ghost before = places_of@;
        proof {
            assert(now.drop_last() =~= keys.take(i as int));
            assert(now.last() == join_key(*h, doc_view(right@[i as int]), path@));
        }
        if let Some(key) = key_at_path(h, &right[i], path) {
            let ghost kv = key@;
            let mut list = match places_of.remove(&key) {
                Some(l) => l,
                None => Vec::new(),
            };
            let ghost had = as_places(list@);
            proof {
                assert(had =~= places_with(keys.take(i as int), kv));
            }
            list.push(i);
            proof {
                assert(as_places(list@) =~= had.push(i as int));
            }
            let ghost lv = list@;
            places_of.insert(key, list);
            proof {
                assert(places_with(now, kv) == had.push(i as int));
                assert forall|k: Seq<u8>| #[trigger]
                    places_of@.dom().contains(k) implies as_places(places_of@[k]@) == places_with(
                    now,
                    k,
                ) by {
                    if k != kv {
                        assert(before.dom().contains(k));
                    }
                }
                assert forall|k: Seq<u8>| !(#[trigger] places_of@.dom().contains(k)) implies places_with(
                    now,
                    k,
                ).len() == 0 by {
                    assert(!before.dom().contains(k));
                }
                assert forall|k: Seq<u8>, j: int|
                    places_of@.dom().contains(k) && 0 <= j < places_of@[k]@.len() implies #[trigger] places_of@[k]@[j]
                    < i + 1 by {
                    if k != kv {
                        assert(before.dom().contains(k));
                        assert(before[k]@[j] < i);
                    } else {
                        if j < lv.len() - 1 {
                            assert(had[j] == lv[j] as int);
                            if before.dom().contains(kv) {
                                assert(before[kv]@[j] < i);
                            }
                        }
                    }
                }
            }
        } else {
            proof {
                assert forall|k: Seq<u8>| #[trigger]
                    places_of@.dom().contains(k) implies as_places(places_of@[k]@) == places_with(
                    now,
                    k,
                ) by {
                }
                assert forall|k: Seq<u8>| !(#[trigger] places_of@.dom().contains(k)) implies places_with(
                    now,
                    k,
                ).len() == 0 by {
                }
            }
        }
        i = i + 1;
    }
    proof {
        assert(keys.take(keys.len() as int) =~= keys);
    }
    Buckets { places: places_of }
}

/// The alias of a source: the first is the table of `FROM`, then the joined
/// tables in order.
pub open spec fn source_alias(sel: Select, s: int) -> Seq<char> {
    if s == 0 {
        sel.from_alias@
    } else {
        sel.joins@[s - 1].alias@
    }
}

/// A joined row: for each source so far the place of its row, nothing for the
/// missing side of an outer join.
pub type Tuple = Seq<Option<int>>;

/// The sides of a joined row.
pub open spec fn tuple_sides(sel: Select, ts: Seq<Seq<Fields>>, t: Tuple) -> Sides {
    Seq::new(
        t.len(),
        |s: int|
            (
                source_alias(sel, s),
                match t[s] {
                    Some(p) => Some(ts[s][p]),
                    None => None,
                },
            ),
    )
}

/// A joined row as one document.
pub open spec fn tuple_doc(sel: Select, ts: Seq<Seq<Fields>>, t: Tuple) -> Fields {
    merged(tuple_sides(sel, ts, t))
}

/// The joined rows of `t` with those of the candidates on the right that meet
/// the condition, in order.
pub open spec fn matched<F: Fn(&Expr, &Document) -> Result<bool, EngineError>>(
    f: F,
    sel: Select,
    ts: Seq<Seq<Fields>>,
    on: Option<Expr>,
    t: Tuple,
    cands: Seq<int>,
) -> Result<Seq<Tuple>, EngineError>
    decreases cands.len(),
{
    if cands.len() == 0 {
        Ok(Seq::empty())
    } else {
        match matched(f, sel, ts, on, t, cands.drop_last()) {
            Err(e) => Err(e),
            Ok(out) => {
                let cand = t.push(Some(cands.last()));
                match passes(f, on, tuple_doc(sel, ts, cand)) {
                    Err(e) => Err(e),
                    Ok(true) => Ok(out.push(cand)),
                    Ok(false) => Ok(out),
                }
            },
        }
    }
}

/// The joined rows of the left rows with the table on the right: a left join
/// keeps a left row that meets nothing.
pub open spec fn left_joined<
    F: Fn(&Expr, &Document) -> Result<bool, EngineError>,
    H: Fn(&Document, &String) -> Option<Vec<u8>>,
>(
    f: F,
    h: H,
    sel: Select,
    ts: Seq<Seq<Fields>>,
    j: int,
    tuples: Seq<Tuple>,
) -> Result<Seq<Tuple>, EngineError>
    decreases tuples.len(),
{
    if tuples.len() == 0 {
        Ok(Seq::empty())
    } else {
        match left_joined(f, h, sel, ts, j, tuples.drop_last()) {
            Err(e) => Err(e),
            Ok(out) => {
                let t = tuples.last();
                let join = sel.joins@[j];
                let cands = candidates(
                    h,
                    equi_key(join.on, join.alias@),
                    tuple_doc(sel, ts, t),
                    ts[j + 1],
                );
                match matched(f, sel, ts, join.on, t, cands) {
                    Err(e) => Err(e),
                    Ok(found) => if join.kind == JoinKind::Left && found.len() == 0 {
                        Ok(out.push(t.push(None)))
                    } else {
                        Ok(out + found)
                    },
                }
            },
        }
    }
}

/// The joined rows of the left rows with one row on the right.
pub open spec fn right_matched<F: Fn(&Expr, &Document) -> Result<bool, EngineError>>(
    f: F,
    sel: Select,
    ts: Seq<Seq<Fields>>,
    on: Option<Expr>,
    tuples: Seq<Tuple>,
    p: int,
) -> Result<Seq<Tuple>, EngineError>
    decreases tuples.len(),
{
    if tuples.len() == 0 {
        Ok(Seq::empty())
    } else {
        match right_matched(f, sel, ts, on, tuples.drop_last(), p) {
            Err(e) => Err(e),
            Ok(out) => {
                let cand = tuples.last().push(Some(p));
                match passes(f, on, tuple_doc(sel, ts, cand)) {
                    Err(e) => Err(e),
                    Ok(true) => Ok(out.push(cand)),
                    Ok(false) => Ok(out),
                }
            },
        }
    }
}

/// A joined row with every side on the left missing.
pub open spec fn right_only(width: nat, p: int) -> Tuple {
    Seq::new(width, |s: int| None::<int>).push(Some(p))
}

/// The joined rows of the first `n` rows on the right: a row that meets nothing
/// is kept with every side on the left missing.
pub open spec fn right_joined<F: Fn(&Expr, &Document) -> Result<bool, EngineError>>(
    f: F,
    sel: Select,
    ts: Seq<Seq<Fields>>,
    j: int,
    tuples: Seq<Tuple>,
    n: nat,
) -> Result<Seq<Tuple>, EngineError>
    decreases n,
{
    if n == 0 {
        Ok(Seq::empty())
    } else {
        match right_joined(f, sel, ts, j, tuples, (n - 1) as nat) {
            Err(e) => Err(e),
            Ok(out) => match right_matched(f, sel, ts, sel.joins@[j].on, tuples, n - 1) {
                Err(e) => Err(e),
                Ok(found) => if found.len() == 0 {
                    Ok(out.push(right_only((j + 1) as nat, n - 1)))
                } else {
                    Ok(out + found)
                },
            },
        }
    }
}

/// The joined rows after the first `n` joins.
pub open spec fn joined<
    F: Fn(&Expr, &Document) -> Result<bool, EngineError>,
    H: Fn(&Document, &String) -> Option<Vec<u8>>,
>(f: F, h: H, sel: Select, ts: Seq<Seq<Fields>>, n: nat) -> Result<Seq<Tuple>, EngineError>
    decreases n,
{
    if n == 0 {
        Ok(Seq::new(ts[0].len(), |i: int| seq![Some(i)]))
    } else {
        match joined(f, h, sel, ts, (n - 1) as nat) {
            Err(e) => Err(e),
            Ok(tuples) => if sel.joins@[n - 1].kind == JoinKind::Right {
                right_joined(f, sel, ts, n - 1, tuples, ts[n as int].len())
            } else {
                left_joined(f, h, sel, ts, n - 1, tuples)
            },
        }
    }
}

/// The documents of joined rows that pass a filter.
pub open spec fn joined_docs<F: Fn(&Expr, &Document) -> Result<bool, EngineError>>(
    f: F,
    sel: Select,
    ts: Seq<Seq<Fields>>,
    tuples: Seq<Tuple>,
) -> Result<Seq<Fields>, EngineError>
    decreases tuples.len(),
{
    if tuples.len() == 0 {
        Ok(Seq::empty())
    } else {
        match joined_docs(f, sel, ts, tuples.drop_last()) {
            Err(e) => Err(e),
            Ok(out) => {
                let doc = tuple_doc(sel, ts, tuples.last());
                match passes(f, sel.filter, doc) {
                    Err(e) => Err(e),
                    Ok(true) => Ok(out.push(doc)),
                    Ok(false) => Ok(out),
                }
            },
        }
    }
}

/// The documents of a query over joined tables.
pub open spec fn join_result<
    F: Fn(&Expr, &Document) -> Result<bool, EngineError>,
    H: Fn(&Document, &String) -> Option<Vec<u8>>,
>(f: F, h: H, sel: Select, ts: Seq<Seq<Fields>>) -> Result<Seq<Fields>, EngineError> {
    match joined(f, h, sel, ts, sel.joins@.len()) {
        Err(e) => Err(e),
        Ok(tuples) => joined_docs(f, sel, ts, tuples),
    }
}

/// A joined row by the places of its sides.
pub open spec fn tuple_of(t: Seq<Option<usize>>) -> Tuple {
    t.map_values(
        |p: Option<usize>|
            match p {
                Some(x) => Some(x as int),
                None => None,
            },
    )
}

/// Joined rows by the places of their sides.
pub open spec fn tuples_of(ts: Seq<Vec<Option<usize>>>) -> Seq<Tuple> {
    ts.map_values(|t: Vec<Option<usize>>| tuple_of(t@))
}

/// The rows of tables by what each holds.
pub open spec fn tables_view(tables: Seq<Vec<Document>>) -> Seq<Seq<Fields>> {
    tables.map_values(|t: Vec<Document>| all_docs(t@))
}

/// Whether the rows of all tables have their fields in order.
pub open spec fn tables_wf(tables: Seq<Vec<Document>>) -> bool {
    forall|s: int| 0 <= s < tables.len() ==> docs_wf((#[trigger] tables[s])@)
}

/// Whether a joined row has a side for each of `n` sources and each place is
/// one of the source's rows.
pub open spec fn fits(t: Seq<Option<usize>>, tables: Seq<Vec<Document>>, n: int) -> bool {
    t.len() == n && forall|s: int|
        0 <= s < t.len() && (#[trigger] t[s]) is Some ==> t[s]->0 < tables[s]@.len()
}

/// Whether all joined rows do.
pub open spec fn all_fit(ts: Seq<Vec<Option<usize>>>, tables: Seq<Vec<Document>>, n: int) -> bool {
    forall|i: int| 0 <= i < ts.len() ==> fits((#[trigger] ts[i])@, tables, n)
}

fn merged_row(sel: &Select, tables: &Vec<Vec<Document>>, t: &Vec<Option<usize>>) -> (r: Document)
    requires
        tables_wf(tables@),
        fits(t@, tables@, t@.len() as int),
        0 < t@.len() <= tables@.len(),
        tables@.len() == sel.joins@.len() + 1,
    ensures
        doc_wf(r),
        doc_view(r) == tuple_doc(*sel, tables_view(tables@), tuple_of(t@)),
{
    let ghost ts = tables_view(tables@);
    let ghost tv = tuple_of(t@);
    let mut parts: Vec<(&String, Option<&Document>)> = Vec::new();
    let mut s: usize = 0;
    while s < t.len()
        invariant
            tables_wf(tables@),
            fits(t@, tables@, t@.len() as int),
            0 < t@.len() <= tables@.len(),
            tables@.len() == sel.joins@.len() + 1,
            ts == tables_view(tables@),
            tv == tuple_of(t@),
            s <= t@.len(),
            parts@.len() == s,
            forall|k: int|
                0 <= k < s ==> ((#[trigger] parts@[k]).0@, opt_doc(parts@[k].1)) == tuple_sides(
                    *sel,
                    ts,
                    tv,
                )[k],
            sides_wf(parts@),
        decreases t@.len() - s,
    {
        let alias = if s == 0 {
            &sel.from_alias
        } else {
            &sel.joins[s - 1].alias
        };
        let side = match t[s] {
            Some(p) => {
                proof {
                    assert(t@[s as int] is Some);
                    assert(docs_wf(tables@[s as int]@));
                    assert(doc_wf(tables@[s as int]@[p as int]));
                    assert(ts[s as int][p as int] == doc_view(tables@[s as int]@[p as int]));
                }
                Some(&tables[s][p])
            },
            None => None,
        };
        parts.push((alias, side));
        s = s + 1;
    }
    proof {
        assert(sides_view(parts@) =~= tuple_sides(*sel, ts, tv));
    }
    merge_tuple(&parts)
}

fn extend_tuple(t: &Vec<Option<usize>>, p: Option<usize>) -> (r: Vec<Option<usize>>)
    ensures
        r@ == t@.push(p),
        tuple_of(r@) == tuple_of(t@).push(
            match p {
                Some(x) => Some(x as int),
                None => None,
            },
        ),
{
    let mut out: Vec<Option<usize>> = Vec::new();
    let mut i: usize = 0;
    while i < t.len()
        invariant
            i <= t@.len(),
            out@ == t@.take(i as int),
        decreases t@.len() - i,
    {
        out.push(t[i]);
        proof {
            assert(out@ =~= t@.take(i + 1));
        }
        i = i + 1;
    }
    proof {
        assert(out@ =~= t@);
    }
    out.push(p);
    proof {
        assert(tuple_of(out@) =~= tuple_of(t@).push(
            match p {
                Some(x) => Some(x as int),
                None => None,
            },
        ));
    }
    out
}

proof fn lemma_matched_fails<F: Fn(&Expr, &Document) -> Result<bool, EngineError>>(
    f: F,
    sel: Select,
    ts: Seq<Seq<Fields>>,
    on: Option<Expr>,
    t: Tuple,
    cands: Seq<int>,
    k: int,
)
    requires
        0 <= k <= cands.len(),
        matched(f, sel, ts, on, t, cands.take(k)) is Err,
    ensures
        matched(f, sel, ts, on, t, cands) == matched(f, sel, ts, on, t, cands.take(k)),
    decreases cands.len() - k,
{
    if k == cands.len() {
        assert(cands.take(k) =~= cands);
    } else {
        assert(cands.take(k + 1).drop_last() =~= cands.take(k));
        lemma_matched_fails(f, sel, ts, on, t, cands, k + 1);
    }
}

fn match_row<F: Fn(&Expr, &Document) -> Result<bool, EngineError>>(
    f: &F,
    sel: &Select,
    tables: &Vec<Vec<Document>>,
    on: &Option<Expr>,
    t: &Vec<Option<usize>>,
    cands: &Vec<usize>,
) -> (r: Result<Vec<Vec<Option<usize>>>, EngineError>)
    requires
        is_decider(*f),
        tables_wf(tables@),
        tables@.len() == sel.joins@.len() + 1,
        0 < t@.len() < tables@.len(),
        fits(t@, tables@, t@.len() as int),
        forall|i: int|
            0 <= i < cands@.len() ==> (#[trigger] cands@[i]) < tables@[t@.len() as int]@.len(),
    ensures
        match r {
            Ok(out) => matched(
                *f,
                *sel,
                tables_view(tables@),
                *on,
                tuple_of(t@),
                as_places(cands@),
            ) == Ok::<Seq<Tuple>, EngineError>(tuples_of(out@)) && all_fit(
                out@,
                tables@,
                (t@.len() + 1) as int,
            ),
            Err(e) => matched(
                *f,
                *sel,
                tables_view(tables@),
                *on,
                tuple_of(t@),
                as_places(cands@),
            ) == Err::<Seq<Tuple>, EngineError>(e),
        },
{
    let ghost ts = tables_view(tables@);
    let ghost tv = tuple_of(t@);
    let ghost cs = as_places(cands@);
    let mut out: Vec<Vec<Option<usize>>> = Vec::new();
    let mut i: usize = 0;
    proof {
        assert(cs.take(0) =~= Seq::<int>::empty());
        assert(tuples_of(out@) =~= Seq::<Tuple>::empty());
    }
    while i < cands.len()
        invariant
            is_decider(*f),
            tables_wf(tables@),
            tables@.len() == sel.joins@.len() + 1,
            0 < t@.len() < tables@.len(),
            fits(t@, tables@, t@.len() as int),
            forall|i: int|
                0 <= i < cands@.len() ==> (#[trigger] cands@[i]) < tables@[t@.len() as int]@.len(),
            ts == tables_view(tables@),
            tv == tuple_of(t@),
            cs == as_places(cands@),
            i <= cands@.len(),
            all_fit(out@, tables@, (t@.len() + 1) as int),
            matched(*f, *sel, ts, *on, tv, cs.take(i as int)) == Ok::<Seq<Tuple>, EngineError>(
                tuples_of(out@),
            ),
        decreases cands@.len() - i,
    {
        let ghost before = tuples_of(out@);
        proof {
            assert(cs.take(i + 1).drop_last() =~= cs.take(i as int));
            assert(cs.take(i + 1).last() == cands@[i as int] as int);
        }
        let cand = extend_tuple(t, Some(cands[i]));
        proof {
            assert(fits(cand@, tables@, cand@.len() as int)) by {
                assert forall|s: int| 0 <= s < cand@.len() && (#[trigger] cand@[s]) is Some implies cand@[s]->0
                    < tables@[s]@.len() by {
                    if s < t@.len() {
                        assert(cand@[s] == t@[s]);
                    }
                }
            }
        }
        let doc = merged_row(sel, tables, &cand);
        match matches_filter(f, on, &doc) {
            Err(e) => {
                proof {
                    lemma_matched_fails(*f, *sel, ts, *on, tv, cs, i + 1);
                }
                return Err(e);
            },
            Ok(keep) => {
                if keep {
                    let ghost cv = tuple_of(cand@);
                    out.push(cand);
                    proof {
                        assert(tuples_of(out@) =~= before.push(cv));
                    }
                }
            },
        }
        i = i + 1;
    }
    proof {
        assert(cs.take(cs.len() as int) =~= cs);
    }
    Ok(out)
}

proof fn lemma_left_joined_fails<
    F: Fn(&Expr, &Document) -> Result<bool, EngineError>,
    H: Fn(&Document, &String) -> Option<Vec<u8>>,
>(f: F, h: H, sel: Select, ts: Seq<Seq<Fields>>, j: int, tuples: Seq<Tuple>, k: int)
    requires
        0 <= k <= tuples.len(),
        left_joined(f, h, sel, ts, j, tuples.take(k)) is Err,
    ensures
        left_joined(f, h, sel, ts, j, tuples) == left_joined(f, h, sel, ts, j, tuples.take(k)),
    decreases tuples.len() - k,
{
    if k == tuples.len() {
        assert(tuples.take(k) =~= tuples);
    } else {
        assert(tuples.take(k + 1).drop_last() =~= tuples.take(k));
        lemma_left_joined_fails(f, h, sel, ts, j, tuples, k + 1);
    }
}

fn copy_places(ps: &Vec<usize>) -> (r: Vec<usize>)
    ensures
        r@ == ps@,
{
    let mut out: Vec<usize> = Vec::new();
    let mut i: usize = 0;
    while i < ps.len()
        invariant
            i <= ps@.len(),
            out@ == ps@.take(i as int),
        decreases ps@.len() - i,
    {
        out.push(ps[i]);
        proof {
            assert(out@ =~= ps@.take(i + 1));
        }
        i = i + 1;
    }
    proof {
        assert(out@ =~= ps@);
    }
    out
}

/// The rows on the right that a row on the left is checked against.
fn find_candidates<H: Fn(&Document, &String) -> Option<Vec<u8>>>(
    h: &H,
    equi: &Option<(String, String)>,
    buckets: &Option<Buckets>,
    left: &Document,
    right: &Vec<Document>,
) -> (r: Vec<usize>)
    requires
        is_join_keyer(*h),
        equi is Some <==> buckets is Some,
        buckets matches Some(b) ==> b.places.wf() && holds_places(
            b.places@,
            right_keys(*h, all_docs(right@), (equi->0).1@),
        ) && forall|k: Seq<u8>, i: int|
            b.places@.dom().contains(k) && 0 <= i < b.places@[k]@.len() ==> #[trigger] b.places@[k]@[i]
                < right@.len(),
    ensures
        as_places(r@) == candidates(*h, pair_view(*equi), doc_view(*left), all_docs(right@)),
        forall|i: int| 0 <= i < r@.len() ==> (#[trigger] r@[i]) < right@.len(),
{
    if let Some(pair) = equi {
        if let Some(b) = buckets {
            if let Some(key) = key_at_path(h, left, &pair.0) {
                return match b.places.get(&key) {
                    Some(ps) => {
                        let out = copy_places(ps);
                        proof {
                            assert forall|i: int| 0 <= i < out@.len() implies (#[trigger] out@[i])
                                < right@.len() by {
                                assert(b.places@[key@]@[i] < right@.len());
                            }
                        }
                        out
                    },
                    None => {
                        let out: Vec<usize> = Vec::new();
                        proof {
                            assert(as_places(out@) =~= places_with(
                                right_keys(*h, all_docs(right@), pair.1@),
                                key@,
                            ));
                        }
                        out
                    },
                };
            }
        }
    }
    crate::grouping::all_places(right.len())
}

fn join_left<
    F: Fn(&Expr, &Document) -> Result<bool, EngineError>,
    H: Fn(&Document, &String) -> Option<Vec<u8>>,
>(
    f: &F,
    h: &H,
    sel: &Select,
    tables: &Vec<Vec<Document>>,
    j: usize,
    tuples: &Vec<Vec<Option<usize>>>,
) -> (r: Result<Vec<Vec<Option<usize>>>, EngineError>)
    requires
        is_decider(*f),
        is_join_keyer(*h),
        tables_wf(tables@),
        tables@.len() == sel.joins@.len() + 1,
        j < sel.joins@.len(),
        all_fit(tuples@, tables@, j + 1),
    ensures
        match r {
            Ok(out) => left_joined(
                *f,
                *h,
                *sel,
                tables_view(tables@),
                j as int,
                tuples_of(tuples@),
            ) == Ok::<Seq<Tuple>, EngineError>(tuples_of(out@)) && all_fit(out@, tables@, j + 2),
            Err(e) => left_joined(
                *f,
                *h,
                *sel,
                tables_view(tables@),
                j as int,
                tuples_of(tuples@),
            ) == Err::<Seq<Tuple>, EngineError>(e),
        },
{
    let ghost ts = tables_view(tables@);
    let ghost tv = tuples_of(tuples@);
    let join = &sel.joins[j];
    proof {
        assert(j + 1 < tables.len());
    }
    let right = &tables[j + 1];
    let equi = equi_key_paths(&join.on, join.alias.as_str());
    let buckets = match &equi {
        Some(pair) => Some(bucket_rows(h, right, &pair.1)),
        None => None,
    };
    let mut out: Vec<Vec<Option<usize>>> = Vec::new();
    let mut i: usize = 0;
    proof {
        assert(tv.take(0) =~= Seq::<Tuple>::empty());
        assert(tuples_of(out@) =~= Seq::<Tuple>::empty());
    }
    while i < tuples.len()
        invariant
            is_decider(*f),
            is_join_keyer(*h),
            tables_wf(tables@),
            tables@.len() == sel.joins@.len() + 1,
            j < sel.joins@.len(),
            all_fit(tuples@, tables@, j + 1),
            ts == tables_view(tables@),
            tv == tuples_of(tuples@),
            *join == sel.joins@[j as int],
            *right == tables@[j + 1],
            pair_view(equi) == equi_key(join.on, join.alias@),
            equi is Some <==> buckets is Some,
            buckets matches Some(b) ==> b.places.wf() && holds_places(
                b.places@,
                right_keys(*h, all_docs(right@), (equi->0).1@),
            ) && forall|k: Seq<u8>, i: int|
                b.places@.dom().contains(k) && 0 <= i < b.places@[k]@.len()
                    ==> #[trigger] b.places@[k]@[i] < right@.len(),
            i <= tuples@.len(),
            all_fit(out@, tables@, j + 2),
            left_joined(*f, *h, *sel, ts, j as int, tv.take(i as int)) == Ok::<
                Seq<Tuple>,
                EngineError,
            >(tuples_of(out@)),
        decreases tuples@.len() - i,
    {
        let ghost before = tuples_of(out@);
        let t = &tuples[i];
        proof {
            assert(tv.take(i + 1).drop_last() =~= tv.take(i as int));
            assert(tv.take(i + 1).last() == tuple_of(t@));
            assert(fits(tuples@[i as int]@, tables@, j + 1));
            assert(ts[j + 1] == all_docs(right@));
        }
        let left = merged_row(sel, tables, t);
        let cands = find_candidates(h, &equi, &buckets, &left, right);
        match match_row(f, sel, tables, &join.on, t, &cands) {
            Err(e) => {
                proof {
                    lemma_left_joined_fails(*f, *h, *sel, ts, j as int, tv, i + 1);
                }
                return Err(e);
            },
            Ok(found) => {
                proof {
                    assert(tuples_of(found@).len() == found@.len());
                }
                if join.kind == JoinKind::Left && found.len() == 0 {
                    let alone = extend_tuple(t, None);
                    let ghost av = tuple_of(alone@);
                    proof {
                        assert(fits(alone@, tables@, j + 2)) by {
                            assert forall|s: int|
                                0 <= s < alone@.len() && (#[trigger] alone@[s]) is Some implies alone@[s]->0
                                < tables@[s]@.len() by {
                                assert(alone@[s] == t@[s]);
                            }
                        }
                    }
                    out.push(alone);
                    proof {
                        assert(tuples_of(out@) =~= before.push(av));
                    }
                } else {
                    let mut more = found;
                    let ghost a = out@;
                    let ghost b = more@;
                    out.append(&mut more);
                    proof {
                        assert(out@ =~= a + b);
                        assert(tuples_of(out@) =~= tuples_of(a) + tuples_of(b));
                    }
                }
            },
        }
        i = i + 1;
    }
    proof {
        assert(tv.take(tv.len() as int) =~= tv);
    }
    Ok(out)
}

proof fn lemma_right_matched_fails<F: Fn(&Expr, &Document) -> Result<bool, EngineError>>(
    f: F,
    sel: Select,
    ts: Seq<Seq<Fields>>,
    on: Option<Expr>,
    tuples: Seq<Tuple>,
    p: int,
    k: int,
)
    requires
        0 <= k <= tuples.len(),
        right_matched(f, sel, ts, on, tuples.take(k), p) is Err,
    ensures
        right_matched(f, sel, ts, on, tuples, p) == right_matched(
            f,
            sel,
            ts,
            on,
            tuples.take(k),
            p,
        ),
    decreases tuples.len() - k,
{
    if k == tuples.len() {
        assert(tuples.take(k) =~= tuples);
    } else {
        assert(tuples.take(k + 1).drop_last() =~= tuples.take(k));
        lemma_right_matched_fails(f, sel, ts, on, tuples, p, k + 1);
    }
}

fn match_right<F: Fn(&Expr, &Document) -> Result<bool, EngineError>>(
    f: &F,
    sel: &Select,
    tables: &Vec<Vec<Document>>,
    j: usize,
    tuples: &Vec<Vec<Option<usize>>>,
    p: usize,
) -> (r: Result<Vec<Vec<Option<usize>>>, EngineError>)
    requires
        is_decider(*f),
        tables_wf(tables@),
        tables@.len() == sel.joins@.len() + 1,
        j < sel.joins@.len(),
        all_fit(tuples@, tables@, j + 1),
        p < tables@[j + 1]@.len(),
    ensures
        match r {
            Ok(out) => right_matched(
                *f,
                *sel,
                tables_view(tables@),
                sel.joins@[j as int].on,
                tuples_of(tuples@),
                p as int,
            ) == Ok::<Seq<Tuple>, EngineError>(tuples_of(out@)) && all_fit(out@, tables@, j + 2),
            Err(e) => right_matched(
                *f,
                *sel,
                tables_view(tables@),
                sel.joins@[j as int].on,
                tuples_of(tuples@),
                p as int,
            ) == Err::<Seq<Tuple>, EngineError>(e),
        },
{
    let ghost ts = tables_view(tables@);
    let ghost tv = tuples_of(tuples@);
    let on = &sel.joins[j].on;
    let mut out: Vec<Vec<Option<usize>>> = Vec::new();
    let mut i: usize = 0;
    proof {
        assert(tv.take(0) =~= Seq::<Tuple>::empty());
        assert(tuples_of(out@) =~= Seq::<Tuple>::empty());
    }
    while i < tuples.len()
        invariant
            is_decider(*f),
            tables_wf(tables@),
            tables@.len() == sel.joins@.len() + 1,
            j < sel.joins@.len(),
            all_fit(tuples@, tables@, j + 1),
            p < tables@[j + 1]@.len(),
            ts == tables_view(tables@),
            tv == tuples_of(tuples@),
            *on == sel.joins@[j as int].on,
            i <= tuples@.len(),
            all_fit(out@, tables@, j + 2),
            right_matched(*f, *sel, ts, *on, tv.take(i as int), p as int) == Ok::<
                Seq<Tuple>,
                EngineError,
            >(tuples_of(out@)),
        decreases tuples@.len() - i,
    {
        let ghost before = tuples_of(out@);
        let t = &tuples[i];
        proof {
            assert(tv.take(i + 1).drop_last() =~= tv.take(i as int));
            assert(tv.take(i + 1).last() == tuple_of(t@));
            assert(fits(tuples@[i as int]@, tables@, j + 1));
        }
        let cand = extend_tuple(t, Some(p));
        proof {
            assert(fits(cand@, tables@, j + 2)) by {
                assert forall|s: int| 0 <= s < cand@.len() && (#[trigger] cand@[s]) is Some implies cand@[s]->0
                    < tables@[s]@.len() by {
                    if s < t@.len() {
                        assert(cand@[s] == t@[s]);
                    }
                }
            }
        }
        let doc = merged_row(sel, tables, &cand);
        match matches_filter(f, on, &doc) {
            Err(e) => {
                proof {
                    lemma_right_matched_fails(*f, *sel, ts, *on, tv, p as int, i + 1);
                }
                return Err(e);
            },
            Ok(keep) => {
                if keep {
                    let ghost cv = tuple_of(cand@);
                    out.push(cand);
                    proof {
                        assert(tuples_of(out@) =~= before.push(cv));
                    }
                }
            },
        }
        i = i + 1;
    }
    proof {
        assert(tv.take(tv.len() as int) =~= tv);
    }
    Ok(out)
}

proof fn lemma_right_joined_fails<F: Fn(&Expr, &Document) -> Result<bool, EngineError>>(
    f: F,
    sel: Select,
    ts: Seq<Seq<Fields>>,
    j: int,
    tuples: Seq<Tuple>,
    k: nat,
    n: nat,
)
    requires
        k <= n,
        right_joined(f, sel, ts, j, tuples, k) is Err,
    ensures
        right_joined(f, sel, ts, j, tuples, n) == right_joined(f, sel, ts, j, tuples, k),
    decreases n - k,
{
    if k < n {
        lemma_right_joined_fails(f, sel, ts, j, tuples, k, (n - 1) as nat);
    }
}

/// A joined row of a row on the right alone.
fn right_tuple(width: usize, p: usize) -> (r: Vec<Option<usize>>)
    ensures
        tuple_of(r@) == right_only(width as nat, p as int),
        r@.len() == width + 1,
        forall|s: int| 0 <= s < width ==> (#[trigger] r@[s]) is None,
        r@[width as int] == Some(p),
{
    let mut out: Vec<Option<usize>> = Vec::new();
    let mut i: usize = 0;
    while i < width
        invariant
            i <= width,
            out@.len() == i,
            forall|s: int| 0 <= s < i ==> (#[trigger] out@[s]) is None,
        decreases width - i,
    {
        out.push(None);
        i = i + 1;
    }
    out.push(Some(p));
    proof {
        assert(tuple_of(out@) =~= right_only(width as nat, p as int));
    }
    out
}

fn join_right<F: Fn(&Expr, &Document) -> Result<bool, EngineError>>(
    f: &F,
    sel: &Select,
    tables: &Vec<Vec<Document>>,
    j: usize,
    tuples: &Vec<Vec<Option<usize>>>,
) -> (r: Result<Vec<Vec<Option<usize>>>, EngineError>)
    requires
        is_decider(*f),
        tables_wf(tables@),
        tables@.len() == sel.joins@.len() + 1,
        j < sel.joins@.len(),
        all_fit(tuples@, tables@, j + 1),
    ensures
        match r {
            Ok(out) => right_joined(
                *f,
                *sel,
                tables_view(tables@),
                j as int,
                tuples_of(tuples@),
                tables@[j + 1]@.len(),
            ) == Ok::<Seq<Tuple>, EngineError>(tuples_of(out@)) && all_fit(out@, tables@, j + 2),
            Err(e) => right_joined(
                *f,
                *sel,
                tables_view(tables@),
                j as int,
                tuples_of(tuples@),
                tables@[j + 1]@.len(),
            ) == Err::<Seq<Tuple>, EngineError>(e),
        },
{
    let ghost ts = tables_view(tables@);
    let ghost tv = tuples_of(tuples@);
    proof {
        assert(j + 1 < tables.len());
    }
    let n: usize = tables[j + 1].len();
    let mut out: Vec<Vec<Option<usize>>> = Vec::new();
    let mut p: usize = 0;
    proof {
        assert(tuples_of(out@) =~= Seq::<Tuple>::empty());
    }
    while p < n
        invariant
            is_decider(*f),
            tables_wf(tables@),
            tables@.len() == sel.joins@.len() + 1,
            j < sel.joins@.len(),
            all_fit(tuples@, tables@, j + 1),
            j + 1 < tables.len(),
            n == tables@[j + 1]@.len(),
            ts == tables_view(tables@),
            tv == tuples_of(tuples@),
            p <= n,
            all_fit(out@, tables@, j + 2),
            right_joined(*f, *sel, ts, j as int, tv, p as nat) == Ok::<Seq<Tuple>, EngineError>(
                tuples_of(out@),
            ),
        decreases n - p,
    {
        let ghost before = tuples_of(out@);
        match match_right(f, sel, tables, j, tuples, p) {
            Err(e) => {
                proof {
                    lemma_right_joined_fails(
                        *f,
                        *sel,
                        ts,
                        j as int,
                        tv,
                        (p + 1) as nat,
                        n as nat,
                    );
                }
                return Err(e);
            },
            Ok(found) => {
                proof {
                    assert(tuples_of(found@).len() == found@.len());
                }
                if found.len() == 0 {
                    let alone = right_tuple(j + 1, p);
                    let ghost av = tuple_of(alone@);
                    proof {
                        assert(fits(alone@, tables@, j + 2));
                    }
                    out.push(alone);
                    proof {
                        assert(tuples_of(out@) =~= before.push(av));
                    }
                } else {
                    let mut more = found;
                    let ghost a = out@;
                    let ghost b = more@;
                    out.append(&mut more);
                    proof {
                        assert(out@ =~= a + b);
                        assert(tuples_of(out@) =~= tuples_of(a) + tuples_of(b));
                    }
                }
            },
        }
        p = p + 1;
    }
    Ok(out)
}

proof fn lemma_joined_fails<
    F: Fn(&Expr, &Document) -> Result<bool, EngineError>,
    H: Fn(&Document, &String) -> Option<Vec<u8>>,
>(f: F, h: H, sel: Select, ts: Seq<Seq<Fields>>, k: nat, n: nat)
    requires
        k <= n,
        joined(f, h, sel, ts, k) is Err,
    ensures
        joined(f, h, sel, ts, n) == joined(f, h, sel, ts, k),
    decreases n - k,
{
    if k < n {
        lemma_joined_fails(f, h, sel, ts, k, (n - 1) as nat);
    }
}

proof fn lemma_joined_docs_fail<F: Fn(&Expr, &Document) -> Result<bool, EngineError>>(
    f: F,
    sel: Select,
    ts: Seq<Seq<Fields>>,
    tuples: Seq<Tuple>,
    k: int,
)
    requires
        0 <= k <= tuples.len(),
        joined_docs(f, sel, ts, tuples.take(k)) is Err,
    ensures
        joined_docs(f, sel, ts, tuples) == joined_docs(f, sel, ts, tuples.take(k)),
    decreases tuples.len() - k,
{
    if k == tuples.len() {
        assert(tuples.take(k) =~= tuples);
    } else {
        assert(tuples.take(k + 1).drop_last() =~= tuples.take(k));
        lemma_joined_docs_fail(f, sel, ts, tuples, k + 1);
    }
}

fn docs_of_tuples<F: Fn(&Expr, &Document) -> Result<bool, EngineError>>(
    f: &F,
    sel: &Select,
    tables: &Vec<Vec<Document>>,
    tuples: &Vec<Vec<Option<usize>>>,
) -> (r: Result<Vec<Document>, EngineError>)
    requires
        is_decider(*f),
        tables_wf(tables@),
        tables@.len() == sel.joins@.len() + 1,
        all_fit(tuples@, tables@, tables@.len() as int),
    ensures
        match r {
            Ok(out) => joined_docs(*f, *sel, tables_view(tables@), tuples_of(tuples@)) == Ok::<
                Seq<Fields>,
                EngineError,
            >(all_docs(out@)) && docs_wf(out@),
            Err(e) => joined_docs(*f, *sel, tables_view(tables@), tuples_of(tuples@)) == Err::<
                Seq<Fields>,
                EngineError,
            >(e),
        },
{
    let ghost ts = tables_view(tables@);
    let ghost tv = tuples_of(tuples@);
    let mut out: Vec<Document> = Vec::new();
    let mut i: usize = 0;
    proof {
        assert(tv.take(0) =~= Seq::<Tuple>::empty());
        assert(all_docs(out@) =~= Seq::<Fields>::empty());
    }
    while i < tuples.len()
        invariant
            is_decider(*f),
            tables_wf(tables@),
            tables@.len() == sel.joins@.len() + 1,
            all_fit(tuples@, tables@, tables@.len() as int),
            ts == tables_view(tables@),
            tv == tuples_of(tuples@),
            i <= tuples@.len(),
            docs_wf(out@),
            joined_docs(*f, *sel, ts, tv.take(i as int)) == Ok::<Seq<Fields>, EngineError>(
                all_docs(out@),
            ),
        decreases tuples@.len() - i,
    {
        let ghost before = all_docs(out@);
        proof {
            assert(tv.take(i + 1).drop_last() =~= tv.take(i as int));
            assert(tv.take(i + 1).last() == tuple_of(tuples@[i as int]@));
            assert(fits(tuples@[i as int]@, tables@, tables@.len() as int));
        }
        let doc = merged_row(sel, tables, &tuples[i]);
        match matches_filter(f, &sel.filter, &doc) {
            Err(e) => {
                proof {
                    lemma_joined_docs_fail(*f, *sel, ts, tv, i + 1);
                }
                return Err(e);
            },
            Ok(keep) => {
                if keep {
                    let ghost dv = doc_view(doc);
                    out.push(doc);
                    proof {
                        assert(all_docs(out@) =~= before.push(dv));
                    }
                }
            },
        }
        i = i + 1;
    }
    proof {
        assert(tv.take(tv.len() as int) =~= tv);
    }
    Ok(out)
}

/// The documents of a query over joined tables: the rows of the `FROM` table
/// first, then those of each joined table, in `tables`.
pub fn gather_join_docs<
    F: Fn(&Expr, &Document) -> Result<bool, EngineError>,
    H: Fn(&Document, &String) -> Option<Vec<u8>>,
>(f: &F, h: &H, sel: &Select, tables: &Vec<Vec<Document>>) -> (r: Result<
    Vec<Document>,
    EngineError,
>)
    requires
        is_decider(*f),
        is_join_keyer(*h),
        tables_wf(tables@),
        tables@.len() == sel.joins@.len() + 1,
    ensures
        match r {
            Ok(out) => join_result(*f, *h, *sel, tables_view(tables@)) == Ok::<
                Seq<Fields>,
                EngineError,
            >(all_docs(out@)) && docs_wf(out@),
            Err(e) => join_result(*f, *h, *sel, tables_view(tables@)) == Err::<
                Seq<Fields>,
                EngineError,
            >(e),
        },
{
    let ghost ts = tables_view(tables@);
    let n: usize = tables[0].len();
    let mut tuples: Vec<Vec<Option<usize>>> = Vec::new();
    let mut p: usize = 0;
    while p < n
        invariant
            p <= n,
            n == tables@[0]@.len(),
            tables@.len() > 0,
            tuples@.len() == p,
            forall|i: int| 0 <= i < p ==> (#[trigger] tuples@[i])@ == seq![Some(i as usize)],
        decreases n - p,
    {
        let mut t: Vec<Option<usize>> = Vec::new();
        t.push(Some(p));
        proof {
            assert(t@ =~= seq![Some(p)]);
        }
        tuples.push(t);
        p = p + 1;
    }
    proof {
        let base = Seq::new(ts[0].len(), |i: int| seq![Some(i)]);
        assert(ts[0] == all_docs(tables@[0]@));
        assert forall|i: int| 0 <= i < tuples@.len() implies #[trigger] tuples_of(tuples@)[i]
            == base[i] by {
            assert(tuples@[i]@ == seq![Some(i as usize)]);
            assert(tuple_of(tuples@[i]@) =~= seq![Some(i)]);
        }
        assert(tuples_of(tuples@) =~= base);
        assert forall|i: int| 0 <= i < tuples@.len() implies fits(
            (#[trigger] tuples@[i])@,
            tables@,
            1,
        ) by {
            assert(tuples@[i]@ == seq![Some(i as usize)]);
        }
    }
    let mut j: usize = 0;
    while j < sel.joins.len()
        invariant
            is_decider(*f),
            is_join_keyer(*h),
            tables_wf(tables@),
            tables@.len() == sel.joins@.len() + 1,
            ts == tables_view(tables@),
            j <= sel.joins@.len(),
            all_fit(tuples@, tables@, j + 1),
            joined(*f, *h, *sel, ts, j as nat) == Ok::<Seq<Tuple>, EngineError>(
                tuples_of(tuples@),
            ),
        decreases sel.joins@.len() - j,
    {
        proof {
            assert(ts[j + 1] == all_docs(tables@[j + 1]@));
            assert(ts[j + 1].len() == tables@[j + 1]@.len());
        }
        let step = if sel.joins[j].kind == JoinKind::Right {
            join_right(f, sel, tables, j, &tuples)
        } else {
            join_left(f, h, sel, tables, j, &tuples)
        };
        match step {
            Err(e) => {
                proof {
                    lemma_joined_fails(*f, *h, *sel, ts, (j + 1) as nat, sel.joins@.len());
                }
                return Err(e);
            },
            Ok(next) => {
                tuples = next;
            },
        }
        j = j + 1;
    }
    docs_of_tuples(f, sel, tables, &tuples)
}

/// Whether bucketing loses no pair of a join: where both sides of a pair that
/// the condition accepts, or cannot decide, have a key, it is the same.
pub open spec fn buckets_lose_nothing<
    F: Fn(&Expr, &Document) -> Result<bool, EngineError>,
    H: Fn(&Document, &String) -> Option<Vec<u8>>,
>(f: F, h: H, sel: Select, ts: Seq<Seq<Fields>>, j: int, t: Tuple) -> bool {
    let join = sel.joins@[j];
    equi_key(join.on, join.alias@) matches Some(pair) ==> (join_key(
        h,
        tuple_doc(sel, ts, t),
        pair.0,
    ) matches Some(key) ==> forall|p: int|
        0 <= p < ts[j + 1].len() && #[trigger] join_key(h, ts[j + 1][p], pair.1) != Some(key)
            ==> passes(f, join.on, tuple_doc(sel, ts, t.push(Some(p)))) == Ok::<bool, EngineError>(
            false,
        ))
}

/// Bucketing the right side of a join by key finds the pairs that checking
/// every row on the right would find.
pub proof fn hash_join_is_the_nested_loop<
    F: Fn(&Expr, &Document) -> Result<bool, EngineError>,
    H: Fn(&Document, &String) -> Option<Vec<u8>>,
>(f: F, h: H, sel: Select, ts: Seq<Seq<Fields>>, j: int, t: Tuple)
    requires
        buckets_lose_nothing(f, h, sel, ts, j, t),
    ensures
        ({
            let join = sel.joins@[j];
            matched(
                f,
                sel,
                ts,
                join.on,
                t,
                candidates(
                    h,
                    equi_key(join.on, join.alias@),
                    tuple_doc(sel, ts, t),
                    ts[j + 1],
                ),
            ) == matched(f, sel, ts, join.on, t, places(ts[j + 1].len()))
        }),
{
    let join = sel.joins@[j];
    if let Some(pair) = equi_key(join.on, join.alias@) {
        if let Some(key) = join_key(h, tuple_doc(sel, ts, t), pair.0) {
            let keys = right_keys(h, ts[j + 1], pair.1);
            assert forall|p: int| 0 <= p < keys.len() && #[trigger] keys[p] != Some(key) implies passes(
                f,
                join.on,
                tuple_doc(sel, ts, t.push(Some(p))),
            ) == Ok::<bool, EngineError>(false) by {
                assert(keys[p] == join_key(h, ts[j + 1][p], pair.1));
            }
            lemma_same_matches(f, sel, ts, join.on, t, keys, key);
        }
    }
}

proof fn lemma_same_matches<F: Fn(&Expr, &Document) -> Result<bool, EngineError>>(
    f: F,
    sel: Select,
    ts: Seq<Seq<Fields>>,
    on: Option<Expr>,
    t: Tuple,
    keys: Seq<Option<Seq<u8>>>,
    key: Seq<u8>,
)
    requires
        forall|p: int|
            0 <= p < keys.len() && #[trigger] keys[p] != Some(key) ==> passes(
                f,
                on,
                tuple_doc(sel, ts, t.push(Some(p))),
            ) == Ok::<bool, EngineError>(false),
    ensures
        matched(f, sel, ts, on, t, places_with(keys, key)) == matched(
            f,
            sel,
            ts,
            on,
            t,
            places(keys.len()),
        ),
    decreases keys.len(),
{
    if keys.len() > 0 {
        let init = keys.drop_last();
        let n = keys.len() - 1;
        assert forall|p: int| 0 <= p < init.len() && #[trigger] init[p] != Some(key) implies passes(
            f,
            on,
            tuple_doc(sel, ts, t.push(Some(p))),
        ) == Ok::<bool, EngineError>(false) by {
            assert(keys[p] == init[p]);
        }
        lemma_same_matches(f, sel, ts, on, t, init, key);
        let all = places(keys.len());
        assert(all.drop_last() =~= places(init.len()));
        assert(all.last() == n);
        if keys[n] == Some(key) {
            let found = places_with(keys, key);
            assert(found.drop_last() =~= places_with(init, key));
            assert(found.last() == n);
        }
    } else {
        assert(places(0) =~= Seq::<int>::empty());
    }
}

/// A left join keeps every row on the left.
pub proof fn left_join_keeps_every_left_row<
    F: Fn(&Expr, &Document) -> Result<bool, EngineError>,
    H: Fn(&Document, &String) -> Option<Vec<u8>>,
>(f: F, h: H, sel: Select, ts: Seq<Seq<Fields>>, j: int, tuples: Seq<Tuple>, i: int)
    requires
        sel.joins@[j].kind == JoinKind::Left,
        0 <= i < tuples.len(),
    ensures
        left_joined(f, h, sel, ts, j, tuples) matches Ok(out) ==> extends_some(out, tuples[i]),
    decreases tuples.len(),
{
    if let Ok(out) = left_joined(f, h, sel, ts, j, tuples) {
        let init = tuples.drop_last();
        let before = left_joined(f, h, sel, ts, j, init)->Ok_0;
        let t = tuples.last();
        let join = sel.joins@[j];
        let cands = candidates(
            h,
            equi_key(join.on, join.alias@),
            tuple_doc(sel, ts, t),
            ts[j + 1],
        );
        let found = matched(f, sel, ts, join.on, t, cands)->Ok_0;
        if i < tuples.len() - 1 {
            left_join_keeps_every_left_row(f, h, sel, ts, j, init, i);
            assert(init[i] == tuples[i]);
            let k = choose|k: int| 0 <= k < before.len() && extends(#[trigger] before[k], init[i]);
            assert(out[k] == before[k]);
        } else if found.len() == 0 {
            assert(out[before.len() as int] == t.push(None));
            assert(t.push(None).drop_last() =~= t);
            assert(extends(out[before.len() as int], t));
        } else {
            lemma_matched_extends(f, sel, ts, join.on, t, cands);
            assert(out[before.len() as int] == found[0]);
            assert(extends(found[0], t));
        }
    }
}

/// Whether a joined row is `t` with one more side.
pub open spec fn extends(u: Tuple, t: Tuple) -> bool {
    u.len() == t.len() + 1 && u.drop_last() == t
}

/// Whether some joined row is `t` with one more side.
pub open spec fn extends_some(out: Seq<Tuple>, t: Tuple) -> bool {
    exists|k: int| 0 <= k < out.len() && extends(#[trigger] out[k], t)
}

proof fn lemma_matched_extends<F: Fn(&Expr, &Document) -> Result<bool, EngineError>>(
    f: F,
    sel: Select,
    ts: Seq<Seq<Fields>>,
    on: Option<Expr>,
    t: Tuple,
    cands: Seq<int>,
)
    ensures
        matched(f, sel, ts, on, t, cands) matches Ok(out) ==> forall|k: int|
            0 <= k < out.len() ==> extends(#[trigger] out[k], t),
    decreases cands.len(),
{
    if cands.len() > 0 {
        lemma_matched_extends(f, sel, ts, on, t, cands.drop_last());
        let cand = t.push(Some(cands.last()));
        assert(cand.drop_last() =~= t);
    }
}

} // verus!
