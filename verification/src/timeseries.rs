//! Time-series tables and their rollups: bucket arithmetic, which samples a
//! bucket's partial results come from, and how far a rollup can be trusted.

use vstd::prelude::*;

use crate::catalog::def_of;
use crate::catalog::option_views;
use crate::catalog::CatalogView;
use crate::catalog::RollupDef;
use crate::catalog::RollupView;
use crate::database::Database;
use crate::error::EngineError;
use crate::error::ErrorView;
use crate::text::cat;
use crate::text::cat3;
use crate::text::seq_lt;
use crate::text::str_eq;
use crate::text::str_lt;

verus! {

/// The start of the bucket that a time falls into.
pub open spec fn bucket_of(ts: int, bucket_ms: int) -> int {
    ts - ts % bucket_ms
}

/// The start of the bucket that a time falls into.
pub fn bucket_start(ts: i64, bucket_ms: i64) -> (r: i64)
    requires
        bucket_ms > 0,
        bucket_of(ts as int, bucket_ms as int) >= i64::MIN,
    ensures
        r == bucket_of(ts as int, bucket_ms as int),
{
    proof {
        vstd::arithmetic::div_mod::lemma_mod_bound(ts as int, bucket_ms as int);
    }
    let rem: i64 = match ts.checked_rem_euclid(bucket_ms) {
        Some(r) => r,
        None => 0,
    };
    ts - rem
}

/// A time lies in its bucket, and its bucket's start is a whole number of
/// buckets.
pub proof fn time_lies_in_its_bucket(ts: int, bucket_ms: int)
    requires
        bucket_ms > 0,
    ensures
        bucket_of(ts, bucket_ms) <= ts < bucket_of(ts, bucket_ms) + bucket_ms,
        bucket_of(ts, bucket_ms) % bucket_ms == 0,
        bucket_of(ts, bucket_ms) == (ts / bucket_ms) * bucket_ms,
{
    vstd::arithmetic::div_mod::lemma_mod_bound(ts, bucket_ms);
    vstd::arithmetic::div_mod::lemma_fundamental_div_mod(ts, bucket_ms);
    let q = ts / bucket_ms;
    assert(bucket_ms * q == q * bucket_ms) by (nonlinear_arith);
    vstd::arithmetic::div_mod::lemma_mod_multiples_basic(q, bucket_ms);
}

/// Whether every time's bucket can be told.
pub open spec fn buckets_fit(times: Seq<i64>, bucket_ms: i64) -> bool {
    forall|i: int|
        0 <= i < times.len() ==> bucket_of(#[trigger] times[i] as int, bucket_ms as int)
            >= i64::MIN
}

/// Whether starts are those of the buckets that times fall into, in order and
/// each once.
pub open spec fn are_buckets(starts: Seq<i64>, times: Seq<i64>, bucket_ms: i64) -> bool {
    &&& forall|i: int, j: int| 0 <= i < j < starts.len() ==> #[trigger] starts[i] < #[trigger] starts[j]
    &&& forall|b: i64| #[trigger] starts.contains(b) <==> has_time_in(times, b, bucket_ms)
}

/// Whether some time falls into a bucket.
pub open spec fn has_time_in(times: Seq<i64>, b: i64, bucket_ms: i64) -> bool {
    exists|i: int|
        0 <= i < times.len() && bucket_of(#[trigger] times[i] as int, bucket_ms as int) == b
}

/// Where a bucket's start goes among others in order.
fn bucket_rank(starts: &Vec<i64>, b: i64) -> (r: usize)
    requires
        forall|i: int, j: int|
            0 <= i < j < starts@.len() ==> #[trigger] starts@[i] < #[trigger] starts@[j],
    ensures
        r <= starts@.len(),
        forall|i: int| 0 <= i < r ==> (#[trigger] starts@[i]) < b,
        forall|i: int| r <= i < starts@.len() ==> (#[trigger] starts@[i]) >= b,
{
    let mut i: usize = 0;
    while i < starts.len() && starts[i] < b
        invariant
            i <= starts@.len(),
            forall|k: int| 0 <= k < i ==> (#[trigger] starts@[k]) < b,
        decreases starts@.len() - i,
    {
        i = i + 1;
    }
    proof {
        assert forall|k: int| i <= k < starts@.len() implies (#[trigger] starts@[k]) >= b by {
            if i < k {
                assert(starts@[i as int] < starts@[k]);
            }
        }
    }
    i
}

/// The buckets that repaired samples fall into: those that a rollup has to
/// compute again.
pub fn touched_buckets(times: &Vec<i64>, bucket_ms: i64) -> (r: Vec<i64>)
    requires
        bucket_ms > 0,
        buckets_fit(times@, bucket_ms),
    ensures
        are_buckets(r@, times@, bucket_ms),
{
    let mut out: Vec<i64> = Vec::new();
    let mut i: usize = 0;
    while i < times.len()
        invariant
            bucket_ms > 0,
            buckets_fit(times@, bucket_ms),
            i <= times@.len(),
            are_buckets(out@, times@.take(i as int), bucket_ms),
        decreases times@.len() - i,
    {
        let ghost before = out@;
        let ghost ts = times@.take(i as int);
        let ghost now = times@.take(i + 1);
        let b: i64 = bucket_start(times[i], bucket_ms);
        let k: usize = bucket_rank(&out, b);
        if k == out.len() || out[k] != b {
            out.insert(k, b);
        }
        proof {
            assert(now[i as int] == times@[i as int]);
            assert forall|x: i64| #[trigger]
                out@.contains(x) <==> has_time_in(now, x, bucket_ms) by {
                assert(before.contains(x) <==> has_time_in(ts, x, bucket_ms));
                if has_time_in(ts, x, bucket_ms) {
                    let j = choose|j: int|
                        0 <= j < ts.len() && bucket_of(#[trigger] ts[j] as int, bucket_ms as int)
                            == x;
                    assert(now[j] == ts[j]);
                }
                if has_time_in(now, x, bucket_ms) {
                    let j = choose|j: int|
                        0 <= j < now.len() && bucket_of(#[trigger] now[j] as int, bucket_ms as int)
                            == x;
                    if j < i {
                        assert(ts[j] == now[j]);
                    } else {
                        assert(x == b);
                        if k < before.len() && before[k as int] == b {
                            assert(out@[k as int] == b);
                        } else {
                            assert(out@[k as int] == b);
                        }
                    }
                }
                if before.contains(x) {
                    let p = choose|p: int| 0 <= p < before.len() && before[p] == x;
                    if out@.len() == before.len() {
                        assert(out@[p] == x);
                    } else if p < k {
                        assert(out@[p] == x);
                    } else {
                        assert(out@[p + 1] == x);
                    }
                }
                if out@.contains(x) && x != b {
                    let p = choose|p: int| 0 <= p < out@.len() && out@[p] == x;
                    if out@.len() == before.len() {
                        assert(before[p] == x);
                    } else if p < k {
                        assert(before[p] == x);
                    } else {
                        assert(before[p - 1] == x);
                    }
                }
                if x == b {
                    assert(bucket_of(now[i as int] as int, bucket_ms as int) == x);
                }
            }
        }
        i = i + 1;
    }
    proof {
        assert(times@.take(times@.len() as int) =~= times@);
    }
    out
}

/// The samples of one bucket: how many there are, and the places of the first
/// and the last in time.
#[derive(Clone, Copy, Debug, PartialEq, Eq, Structural)]
pub struct BucketPart {
    pub bucket: i64,
    pub count: u64,
    pub first: usize,
    pub last: usize,
}

/// How many times fall into a bucket.
pub open spec fn count_in(times: Seq<i64>, b: i64, bucket_ms: i64) -> nat
    decreases times.len(),
{
    if times.len() == 0 {
        0
    } else {
        count_in(times.drop_last(), b, bucket_ms) + (if bucket_of(
            times.last() as int,
            bucket_ms as int,
        ) == b {
            1nat
        } else {
            0
        })
    }
}

/// Whether a place is that of the earliest time in a bucket, the first of equal
/// times.
pub open spec fn is_first_in(times: Seq<i64>, b: i64, bucket_ms: i64, p: int) -> bool {
    &&& 0 <= p < times.len()
    &&& bucket_of(times[p] as int, bucket_ms as int) == b
    &&& forall|i: int|
        0 <= i < times.len() && bucket_of(#[trigger] times[i] as int, bucket_ms as int) == b
            ==> times[p] < times[i] || (times[p] == times[i] && p <= i)
}

/// Whether a place is that of the latest time in a bucket, the last of equal
/// times.
pub open spec fn is_last_in(times: Seq<i64>, b: i64, bucket_ms: i64, p: int) -> bool {
    &&& 0 <= p < times.len()
    &&& bucket_of(times[p] as int, bucket_ms as int) == b
    &&& forall|i: int|
        0 <= i < times.len() && bucket_of(#[trigger] times[i] as int, bucket_ms as int) == b
            ==> times[i] < times[p] || (times[i] == times[p] && i <= p)
}

/// Whether a part is that of its bucket.
pub open spec fn is_part(times: Seq<i64>, bucket_ms: i64, part: BucketPart) -> bool {
    &&& part.count == count_in(times, part.bucket, bucket_ms)
    &&& is_first_in(times, part.bucket, bucket_ms, part.first as int)
    &&& is_last_in(times, part.bucket, bucket_ms, part.last as int)
}

/// Whether parts are those of all buckets that times fall into, in order.
pub open spec fn are_parts(parts: Seq<BucketPart>, times: Seq<i64>, bucket_ms: i64) -> bool {
    &&& forall|i: int, j: int|
        0 <= i < j < parts.len() ==> (#[trigger] parts[i]).bucket < (#[trigger] parts[j]).bucket
    &&& forall|i: int| 0 <= i < parts.len() ==> is_part(times, bucket_ms, #[trigger] parts[i])
    &&& forall|i: int|
        0 <= i < times.len() ==> has_part(
            parts,
            bucket_of(#[trigger] times[i] as int, bucket_ms as int),
        )
}

/// Whether a bucket has a part.
pub open spec fn has_part(parts: Seq<BucketPart>, b: int) -> bool {
    exists|i: int| 0 <= i < parts.len() && (#[trigger] parts[i]).bucket == b
}

proof fn lemma_count_bound(times: Seq<i64>, b: i64, bucket_ms: i64)
    ensures
        count_in(times, b, bucket_ms) <= times.len(),
    decreases times.len(),
{
    if times.len() > 0 {
        lemma_count_bound(times.drop_last(), b, bucket_ms);
    }
}

proof fn lemma_none_in(times: Seq<i64>, b: i64, bucket_ms: i64)
    requires
        forall|i: int|
            0 <= i < times.len() ==> bucket_of(#[trigger] times[i] as int, bucket_ms as int) != b,
    ensures
        count_in(times, b, bucket_ms) == 0,
    decreases times.len(),
{
    if times.len() > 0 {
        assert(times[times.len() - 1] == times.last());
        assert forall|i: int| 0 <= i < times.len() - 1 implies bucket_of(
            #[trigger] times.drop_last()[i] as int,
            bucket_ms as int,
        ) != b by {
            assert(times.drop_last()[i] == times[i]);
        }
        lemma_none_in(times.drop_last(), b, bucket_ms);
    }
}

/// The part of a bucket with one more sample.
fn grown_part(part: BucketPart, times: &Vec<i64>, i: usize, bucket_ms: i64) -> (r: BucketPart)
    requires
        i < times@.len(),
        is_part(times@.take(i as int), bucket_ms, part),
        bucket_of(times@[i as int] as int, bucket_ms as int) == part.bucket,
    ensures
        r.bucket == part.bucket,
        is_part(times@.take(i + 1), bucket_ms, r),
{
    let ghost old_ts = times@.take(i as int);
    let ghost now = times@.take(i + 1);
    let ts: i64 = times[i];
    let first: usize = if ts < times[part.first] {
        i
    } else {
        part.first
    };
    let last: usize = if ts >= times[part.last] {
        i
    } else {
        part.last
    };
    proof {
        lemma_count_bound(old_ts, part.bucket, bucket_ms);
        assert(now.drop_last() =~= old_ts);
        assert(now.last() == ts);
        assert(old_ts[part.first as int] == times@[part.first as int]);
        assert(old_ts[part.last as int] == times@[part.last as int]);
        assert forall|k: int|
            0 <= k < now.len() && bucket_of(#[trigger] now[k] as int, bucket_ms as int)
                == part.bucket implies now[first as int] < now[k] || (now[first as int] == now[k]
            && first <= k) by {
            if k < i {
                assert(old_ts[k] == now[k]);
            }
        }
        assert forall|k: int|
            0 <= k < now.len() && bucket_of(#[trigger] now[k] as int, bucket_ms as int)
                == part.bucket implies now[k] < now[last as int] || (now[k] == now[last as int]
            && k <= last) by {
            if k < i {
                assert(old_ts[k] == now[k]);
            }
        }
    }
    proof {
        assert(i < times.len());
        assert(part.count <= i);
    }
    BucketPart { bucket: part.bucket, count: part.count + 1, first, last }
}

/// Keeps the part of another bucket.
proof fn lemma_part_stays(times: Seq<i64>, i: int, bucket_ms: i64, part: BucketPart)
    requires
        0 <= i < times.len(),
        is_part(times.take(i), bucket_ms, part),
        bucket_of(times[i] as int, bucket_ms as int) != part.bucket,
    ensures
        is_part(times.take(i + 1), bucket_ms, part),
{
    let old_ts = times.take(i);
    let now = times.take(i + 1);
    assert(now.drop_last() =~= old_ts);
    assert(now.last() == times[i]);
    assert forall|k: int|
        0 <= k < now.len() && bucket_of(#[trigger] now[k] as int, bucket_ms as int)
            == part.bucket implies now[part.first as int] < now[k] || (now[part.first as int]
        == now[k] && part.first <= k) by {
        if k < i {
            assert(old_ts[k] == now[k]);
        } else {
            assert(now[k] == times[i]);
        }
    }
    assert forall|k: int|
        0 <= k < now.len() && bucket_of(#[trigger] now[k] as int, bucket_ms as int)
            == part.bucket implies now[k] < now[part.last as int] || (now[k]
        == now[part.last as int] && k <= part.last) by {
        if k < i {
            assert(old_ts[k] == now[k]);
        } else {
            assert(now[k] == times[i]);
        }
    }
}

fn part_rank(parts: &Vec<BucketPart>, b: i64) -> (r: usize)
    requires
        forall|i: int, j: int|
            0 <= i < j < parts@.len() ==> (#[trigger] parts@[i]).bucket < (
            #[trigger] parts@[j]).bucket,
    ensures
        r <= parts@.len(),
        forall|i: int| 0 <= i < r ==> (#[trigger] parts@[i]).bucket < b,
        forall|i: int| r <= i < parts@.len() ==> (#[trigger] parts@[i]).bucket >= b,
{
    let mut i: usize = 0;
    while i < parts.len() && parts[i].bucket < b
        invariant
            i <= parts@.len(),
            forall|k: int| 0 <= k < i ==> (#[trigger] parts@[k]).bucket < b,
        decreases parts@.len() - i,
    {
        i = i + 1;
    }
    proof {
        assert forall|k: int| i <= k < parts@.len() implies (#[trigger] parts@[k]).bucket >= b by {
            if i < k {
                assert(parts@[i as int].bucket < parts@[k].bucket);
            }
        }
    }
    i
}

/// The parts of other buckets stay when a time comes in.
proof fn lemma_others_stay(before: Seq<BucketPart>, times: Seq<i64>, i: int, bucket_ms: i64, b: i64)
    requires
        0 <= i < times.len(),
        are_parts(before, times.take(i), bucket_ms),
        bucket_of(times[i] as int, bucket_ms as int) == b,
    ensures
        forall|j: int|
            0 <= j < before.len() && (#[trigger] before[j]).bucket != b ==> is_part(
                times.take(i + 1),
                bucket_ms,
                before[j],
            ),
{
    assert forall|j: int| 0 <= j < before.len() && (#[trigger] before[j]).bucket != b implies is_part(
        times.take(i + 1),
        bucket_ms,
        before[j],
    ) by {
        assert(is_part(times.take(i), bucket_ms, before[j]));
        lemma_part_stays(times, i, bucket_ms, before[j]);
    }
}

/// Every time that had a part has one still, and so has the new one.
proof fn lemma_all_have_parts(
    before: Seq<BucketPart>,
    after: Seq<BucketPart>,
    times: Seq<i64>,
    i: int,
    bucket_ms: i64,
)
    requires
        0 <= i < times.len(),
        forall|j: int|
            0 <= j < times.take(i).len() ==> has_part(
                before,
                bucket_of(#[trigger] times.take(i)[j] as int, bucket_ms as int),
            ),
        forall|x: int| has_part(before, x) ==> has_part(after, x),
        has_part(after, bucket_of(times[i] as int, bucket_ms as int)),
    ensures
        forall|j: int|
            0 <= j < times.take(i + 1).len() ==> has_part(
                after,
                bucket_of(#[trigger] times.take(i + 1)[j] as int, bucket_ms as int),
            ),
{
    assert forall|j: int| 0 <= j < times.take(i + 1).len() implies has_part(
        after,
        bucket_of(#[trigger] times.take(i + 1)[j] as int, bucket_ms as int),
    ) by {
        if j < i {
            assert(times.take(i)[j] == times.take(i + 1)[j]);
        }
    }
}

proof fn lemma_grown(
    before: Seq<BucketPart>,
    after: Seq<BucketPart>,
    k: int,
    times: Seq<i64>,
    i: int,
    bucket_ms: i64,
)
    requires
        0 <= i < times.len(),
        are_parts(before, times.take(i), bucket_ms),
        0 <= k < before.len(),
        after == before.update(k, after[k]),
        after[k].bucket == before[k].bucket,
        before[k].bucket == bucket_of(times[i] as int, bucket_ms as int),
        is_part(times.take(i + 1), bucket_ms, after[k]),
    ensures
        are_parts(after, times.take(i + 1), bucket_ms),
{
    let b = before[k].bucket;
    let now = times.take(i + 1);
    lemma_others_stay(before, times, i, bucket_ms, b);
    assert forall|j: int| 0 <= j < after.len() implies is_part(now, bucket_ms, #[trigger] after[j]) by {
        if j != k {
            assert(after[j] == before[j]);
            if j < k {
                assert(before[j].bucket < before[k].bucket);
            } else {
                assert(before[k].bucket < before[j].bucket);
            }
        }
    }
    assert forall|j: int, l: int| 0 <= j < l < after.len() implies (#[trigger] after[j]).bucket < (
    #[trigger] after[l]).bucket by {
        assert(after[j].bucket == before[j].bucket);
        assert(after[l].bucket == before[l].bucket);
        assert(before[j].bucket < before[l].bucket);
    }
    assert forall|x: int| has_part(before, x) implies has_part(after, x) by {
        let p = choose|p: int| 0 <= p < before.len() && (#[trigger] before[p]).bucket == x;
        assert(after[p].bucket == x);
    }
    assert(after[k].bucket == b);
    lemma_all_have_parts(before, after, times, i, bucket_ms);
}

proof fn lemma_placed(
    before: Seq<BucketPart>,
    part: BucketPart,
    k: int,
    times: Seq<i64>,
    i: int,
    bucket_ms: i64,
)
    requires
        0 <= i < times.len(),
        i <= usize::MAX,
        are_parts(before, times.take(i), bucket_ms),
        0 <= k <= before.len(),
        part == (BucketPart { bucket: part.bucket, count: 1, first: i as usize, last: i as usize }),
        part.bucket == bucket_of(times[i] as int, bucket_ms as int),
        forall|j: int| 0 <= j < k ==> (#[trigger] before[j]).bucket < part.bucket,
        forall|j: int| k <= j < before.len() ==> (#[trigger] before[j]).bucket > part.bucket,
    ensures
        are_parts(before.insert(k, part), times.take(i + 1), bucket_ms),
{
    let b = part.bucket;
    let old_ts = times.take(i);
    let now = times.take(i + 1);
    let after = before.insert(k, part);
    lemma_others_stay(before, times, i, bucket_ms, b);
    assert forall|j: int| 0 <= j < old_ts.len() implies bucket_of(
        #[trigger] old_ts[j] as int,
        bucket_ms as int,
    ) != b by {
        let x = bucket_of(old_ts[j] as int, bucket_ms as int);
        assert(has_part(before, x));
        let p = choose|p: int| 0 <= p < before.len() && (#[trigger] before[p]).bucket == x;
        assert(before[p].bucket != b);
    }
    lemma_none_in(old_ts, b, bucket_ms);
    assert(now.drop_last() =~= old_ts);
    assert(now.last() == times[i]);
    assert(is_part(now, bucket_ms, part)) by {
        assert(now[i] == times[i]);
        assert forall|j: int|
            0 <= j < now.len() && bucket_of(#[trigger] now[j] as int, bucket_ms as int)
                == b implies j == i by {
            if j < i {
                assert(old_ts[j] == now[j]);
            }
        }
    }
    assert forall|j: int| 0 <= j < after.len() implies is_part(now, bucket_ms, #[trigger] after[j]) by {
        if j < k {
            assert(after[j] == before[j]);
        } else if j > k {
            assert(after[j] == before[j - 1]);
        }
    }
    assert forall|j: int, l: int| 0 <= j < l < after.len() implies (#[trigger] after[j]).bucket < (
    #[trigger] after[l]).bucket by {
        if j < k {
            assert(after[j] == before[j]);
        } else if j > k {
            assert(after[j] == before[j - 1]);
        }
        if l < k {
            assert(after[l] == before[l]);
        } else if l > k {
            assert(after[l] == before[l - 1]);
        }
    }
    assert forall|x: int| has_part(before, x) implies has_part(after, x) by {
        let p = choose|p: int| 0 <= p < before.len() && (#[trigger] before[p]).bucket == x;
        if p < k {
            assert(after[p].bucket == x);
        } else {
            assert(after[p + 1].bucket == x);
        }
    }
    assert(after[k].bucket == b);
    lemma_all_have_parts(before, after, times, i, bucket_ms);
}

fn take_time(out: &mut Vec<BucketPart>, times: &Vec<i64>, i: usize, bucket_ms: i64)
    requires
        bucket_ms > 0,
        buckets_fit(times@, bucket_ms),
        i < times@.len(),
        are_parts(old(out)@, times@.take(i as int), bucket_ms),
    ensures
        are_parts(final(out)@, times@.take(i + 1), bucket_ms),
{
    let ghost before = out@;
    let b: i64 = bucket_start(times[i], bucket_ms);
    let k: usize = part_rank(out, b);
    if k < out.len() && out[k].bucket == b {
        let part = out[k];
        let grown = grown_part(part, times, i, bucket_ms);
        out.set(k, grown);
        proof {
            lemma_grown(before, out@, k as int, times@, i as int, bucket_ms);
        }
    } else {
        let part = BucketPart { bucket: b, count: 1, first: i, last: i };
        out.insert(k, part);
        proof {
            assert forall|j: int| k <= j < before.len() implies (#[trigger] before[j]).bucket
                > part.bucket by {
                if j > k {
                    assert(before[k as int].bucket < before[j].bucket);
                }
            }
            lemma_placed(before, part, k as int, times@, i as int, bucket_ms);
        }
    }
}

/// The parts that a rollup keeps of a series' samples: for each bucket the
/// number of samples and which is the first and the last.
pub fn rollup_parts(times: &Vec<i64>, bucket_ms: i64) -> (r: Vec<BucketPart>)
    requires
        bucket_ms > 0,
        buckets_fit(times@, bucket_ms),
    ensures
        are_parts(r@, times@, bucket_ms),
{
    let mut out: Vec<BucketPart> = Vec::new();
    let mut i: usize = 0;
    while i < times.len()
        invariant
            bucket_ms > 0,
            buckets_fit(times@, bucket_ms),
            i <= times@.len(),
            are_parts(out@, times@.take(i as int), bucket_ms),
        decreases times@.len() - i,
    {
        take_time(&mut out, times, i, bucket_ms);
        i = i + 1;
    }
    proof {
        assert(times@.take(times@.len() as int) =~= times@);
    }
    out
}

/// The partial results that a rollup keeps of each bucket, in order.
#[derive(Clone, Copy, Debug, PartialEq, Eq, Structural)]
pub enum RollupPart {
    Count,
    Sum,
    Min,
    Max,
    First,
    Last,
}

/// The name of a partial result.
pub open spec fn part_name(p: RollupPart) -> Seq<char> {
    match p {
        RollupPart::Count => "count"@,
        RollupPart::Sum => "sum"@,
        RollupPart::Min => "min"@,
        RollupPart::Max => "max"@,
        RollupPart::First => "first"@,
        RollupPart::Last => "last"@,
    }
}

/// The field that a series' samples are of.
pub open spec fn series_field(labels: Seq<(String, String)>) -> Seq<char>
    decreases labels.len(),
{
    if labels.len() == 0 {
        "value"@
    } else if labels[0].0@ == "__field__"@ {
        labels[0].1@
    } else {
        series_field(labels.skip(1))
    }
}

/// Labels without the field.
pub open spec fn base_labels(labels: Seq<(String, String)>) -> Seq<(Seq<char>, Seq<char>)>
    decreases labels.len(),
{
    if labels.len() == 0 {
        Seq::empty()
    } else if labels.last().0@ == "__field__"@ {
        base_labels(labels.drop_last())
    } else {
        base_labels(labels.drop_last()).push((labels.last().0@, labels.last().1@))
    }
}

/// The order of labels: by name, then by value.
pub open spec fn label_lt(a: (Seq<char>, Seq<char>), b: (Seq<char>, Seq<char>)) -> bool {
    seq_lt(a.0, b.0) || (a.0 == b.0 && seq_lt(a.1, b.1))
}

/// The labels of a rollup series: those of its source without the field, with
/// the field of the partial result, in order.
pub open spec fn part_labels(labels: Seq<(String, String)>, p: RollupPart) -> Seq<
    (Seq<char>, Seq<char>),
> {
    crate::order::stable_sorted(
        base_labels(labels).push(
            ("__field__"@, series_field(labels) + "_"@ + part_name(p)),
        ),
        |a: (Seq<char>, Seq<char>), b: (Seq<char>, Seq<char>)| label_lt(a, b),
    )
}

fn field_of_series(labels: &Vec<(String, String)>) -> (r: String)
    ensures
        r@ == series_field(labels@),
{
    let mut i: usize = 0;
    proof {
        assert(labels@.skip(0) =~= labels@);
    }
    while i < labels.len()
        invariant
            i <= labels@.len(),
            series_field(labels@) == series_field(labels@.skip(i as int)),
        decreases labels@.len() - i,
    {
        proof {
            assert(labels@.skip(i as int)[0] == labels@[i as int]);
            assert(labels@.skip(i as int).skip(1) =~= labels@.skip(i + 1));
        }
        if str_eq(labels[i].0.as_str(), "__field__") {
            return labels[i].1.clone();
        }
        i = i + 1;
    }
    "value".to_owned()
}

fn label_before(a: &(String, String), b: &(String, String)) -> (r: bool)
    ensures
        r == label_lt((a.0@, a.1@), (b.0@, b.1@)),
{
    str_lt(a.0.as_str(), b.0.as_str()) || (str_eq(a.0.as_str(), b.0.as_str()) && str_lt(
        a.1.as_str(),
        b.1.as_str(),
    ))
}

fn place_label(out: &mut Vec<(String, String)>, label: (String, String))
    ensures
        option_views(final(out)@) == crate::order::put_in(
            option_views(old(out)@),
            (label.0@, label.1@),
            |a: (Seq<char>, Seq<char>), b: (Seq<char>, Seq<char>)| label_lt(a, b),
        ),
{
    let ghost lt = |a: (Seq<char>, Seq<char>), b: (Seq<char>, Seq<char>)| label_lt(a, b);
    let ghost s = option_views(out@);
    let ghost x = (label.0@, label.1@);
    let mut k: usize = 0;
    while k < out.len() && !label_before(&label, &out[k])
        invariant
            lt == (|a: (Seq<char>, Seq<char>), b: (Seq<char>, Seq<char>)| label_lt(a, b)),
            s == option_views(out@),
            x == (label.0@, label.1@),
            k <= out@.len(),
            forall|i: int| 0 <= i < k ==> !lt(x, #[trigger] s[i]),
        decreases out@.len() - k,
    {
        proof {
            assert(s[k as int] == (out@[k as int].0@, out@[k as int].1@));
        }
        k = k + 1;
    }
    proof {
        if k < out@.len() {
            assert(s[k as int] == (out@[k as int].0@, out@[k as int].1@));
        }
        crate::order::lemma_slot_for_is(s, x, lt, k as int);
    }
    out.insert(k, label);
    proof {
        assert(option_views(out@) =~= crate::order::put_in(s, x, lt));
    }
}

/// The labels of the rollup series that holds a partial result.
pub fn rollup_labels(labels: &Vec<(String, String)>, p: RollupPart) -> (r: Vec<(String, String)>)
    ensures
        option_views(r@) == part_labels(labels@, p),
{
    let ghost lt = |a: (Seq<char>, Seq<char>), b: (Seq<char>, Seq<char>)| label_lt(a, b);
    let mut out: Vec<(String, String)> = Vec::new();
    let mut i: usize = 0;
    proof {
        assert(labels@.take(0) =~= Seq::<(String, String)>::empty());
        assert(option_views(out@) =~= Seq::<(Seq<char>, Seq<char>)>::empty());
    }
    while i < labels.len()
        invariant
            lt == (|a: (Seq<char>, Seq<char>), b: (Seq<char>, Seq<char>)| label_lt(a, b)),
            i <= labels@.len(),
            option_views(out@) == crate::order::stable_sorted(
                base_labels(labels@.take(i as int)),
                lt,
            ),
        decreases labels@.len() - i,
    {
        let ghost base = base_labels(labels@.take(i as int));
        proof {
            assert(labels@.take(i + 1).drop_last() =~= labels@.take(i as int));
            assert(labels@.take(i + 1).last() == labels@[i as int]);
        }
        if !str_eq(labels[i].0.as_str(), "__field__") {
            let label = (labels[i].0.clone(), labels[i].1.clone());
            let ghost x = (label.0@, label.1@);
            place_label(&mut out, label);
            proof {
                assert(base.push(x).drop_last() =~= base);
            }
        }
        i = i + 1;
    }
    let field = field_of_series(labels);
    let name = match p {
        RollupPart::Count => "count",
        RollupPart::Sum => "sum",
        RollupPart::Min => "min",
        RollupPart::Max => "max",
        RollupPart::First => "first",
        RollupPart::Last => "last",
    };
    let label = ("__field__".to_owned(), cat3(field.as_str(), "_", name));
    let ghost x = (label.0@, label.1@);
    place_label(&mut out, label);
    proof {
        let base = base_labels(labels@);
        assert(labels@.take(labels@.len() as int) =~= labels@);
        assert(base.push(x).drop_last() =~= base);
    }
    out
}

/// What a time-series store says of its data. The least time stands for none.
#[derive(Clone, Copy, Debug, PartialEq, Eq, Structural)]
pub struct StoreRange {
    /// The latest flushed sample that retention goes by.
    pub max_ts: i64,
    /// Up to where samples are flushed.
    pub flushed_through: i64,
    /// The earliest sample that is not flushed.
    pub head_min_ts: Option<i64>,
    /// The latest sample of all.
    pub max_ts_all: i64,
}

/// A difference held at the least number.
pub open spec fn held_low(n: int) -> int {
    if n < i64::MIN {
        i64::MIN as int
    } else if n > i64::MAX {
        i64::MAX as int
    } else {
        n
    }
}

/// The time below which a source's blocks may be gone already.
pub open spec fn horizon_of(retention_ms: i64, s: StoreRange) -> Option<int> {
    if s.max_ts == i64::MIN {
        None
    } else {
        let low = held_low(s.max_ts - retention_ms);
        let h = if low < s.flushed_through {
            low
        } else {
            s.flushed_through as int
        };
        if h == i64::MIN {
            None
        } else {
            Some(h)
        }
    }
}

/// The time below which a rollup has everything that its source has.
pub open spec fn complete_of(s: StoreRange) -> Option<int> {
    match s.head_min_ts {
        Some(t) => Some(t as int),
        None => if s.max_ts_all == i64::MIN {
            None
        } else {
            Some(s.max_ts_all + 1)
        },
    }
}

/// What a query needs to know of a table's rollups.
pub struct RollupInfo {
    /// The time below which the source may have lost samples.
    pub horizon: Option<i64>,
    /// The time below which the rollups have everything.
    pub complete_below: Option<i64>,
    pub rollups: Vec<RollupDef>,
}

/// An optional time as an integer.
pub open spec fn opt_time(t: Option<i64>) -> Option<int> {
    match t {
        Some(x) => Some(x as int),
        None => None,
    }
}

/// What a query needs to know of a table's rollups: the horizon, the completed
/// time, and the rollups; or why that cannot be told.
pub open spec fn rollup_info(v: CatalogView, table: Seq<char>, store: Option<StoreRange>) -> Result<
    (Option<int>, Option<int>, Seq<RollupView>),
    ErrorView,
> {
    if !v.timeseries.dom().contains(table) {
        Err(ErrorView::TableNotFound(table))
    } else {
        let d = v.timeseries[table];
        match store {
            None => if d.retention_ms is Some || d.rollups.len() > 0 {
                Err(ErrorView::TableNotFound(table))
            } else {
                Ok((None, None, d.rollups))
            },
            Some(s) => Ok(
                (
                    match d.retention_ms {
                        Some(r) => horizon_of(r, s),
                        None => None,
                    },
                    if d.rollups.len() == 0 {
                        None
                    } else {
                        complete_of(s)
                    },
                    d.rollups,
                ),
            ),
        }
    }
}

/// Whether the completed time is the one behind the newest sample: the table
/// has rollups, and no sample of the store is unflushed.
pub open spec fn adds_to_the_newest(v: CatalogView, table: Seq<char>, store: Option<StoreRange>) -> bool {
    v.timeseries.dom().contains(table) && v.timeseries[table].rollups.len() > 0 && (
    store matches Some(s) && s.head_min_ts is None)
}

fn copy_rollups(rs: &Vec<RollupDef>) -> (r: Vec<RollupDef>)
    ensures
        crate::catalog::rollup_views(r@) == crate::catalog::rollup_views(rs@),
{
    let mut out: Vec<RollupDef> = Vec::new();
    let mut i: usize = 0;
    while i < rs.len()
        invariant
            i <= rs@.len(),
            out@.len() == i,
            forall|k: int| 0 <= k < i ==> (#[trigger] out@[k])@ == rs@[k]@,
        decreases rs@.len() - i,
    {
        out.push(RollupDef { name: rs[i].name.clone(), bucket_ms: rs[i].bucket_ms });
        i = i + 1;
    }
    proof {
        assert(crate::catalog::rollup_views(out@) =~= crate::catalog::rollup_views(rs@));
    }
    out
}

impl Database {
    /// How far a time-series table's own samples and its rollups can be
    /// trusted. `store` is what the open store says, if it is open.
    pub fn ts_rollup_info(&self, table: &str, store: Option<StoreRange>) -> (r: Result<
        RollupInfo,
        EngineError,
    >)
        requires
            self.wf(),
            adds_to_the_newest(self@.cat, table@, store) ==> store->0.max_ts_all < i64::MAX,
        ensures
            match r {
                Ok(i) => rollup_info(self@.cat, table@, store) == Ok::<
                    (Option<int>, Option<int>, Seq<RollupView>),
                    ErrorView,
                >(
                    (
                        opt_time(i.horizon),
                        opt_time(i.complete_below),
                        crate::catalog::rollup_views(i.rollups@),
                    ),
                ),
                Err(e) => rollup_info(self@.cat, table@, store) == Err::<
                    (Option<int>, Option<int>, Seq<RollupView>),
                    ErrorView,
                >(e@),
            },
    {
        let d = match def_of(&self.catalog.timeseries, &table.to_owned()) {
            None => {
                return Err(EngineError::TableNotFound(table.to_owned()));
            },
            Some(d) => d,
        };
        proof {
            assert(d@.rollups.len() == d.rollups@.len());
        }
        let rollups = copy_rollups(&d.rollups);
        let s = match store {
            None => {
                if d.retention_ms.is_some() || d.rollups.len() > 0 {
                    return Err(EngineError::TableNotFound(table.to_owned()));
                }
                return Ok(RollupInfo { horizon: None, complete_below: None, rollups });
            },
            Some(s) => s,
        };
        let horizon: Option<i64> = match d.retention_ms {
            None => None,
            Some(keep) => {
                if s.max_ts == i64::MIN {
                    None
                } else {
                    let low: i64 = match s.max_ts.checked_sub(keep) {
                        Some(n) => n,
                        None => if keep > 0 {
                            i64::MIN
                        } else {
                            i64::MAX
                        },
                    };
                    let h: i64 = if low < s.flushed_through {
                        low
                    } else {
                        s.flushed_through
                    };
                    if h == i64::MIN {
                        None
                    } else {
                        Some(h)
                    }
                }
            },
        };
        let complete_below: Option<i64> = if d.rollups.len() == 0 {
            None
        } else {
            match s.head_min_ts {
                Some(t) => Some(t),
                None => if s.max_ts_all == i64::MIN {
                    None
                } else {
                    Some(s.max_ts_all + 1)
                },
            }
        };
        Ok(RollupInfo { horizon, complete_below, rollups })
    }
}

/// Everything at or above a table's horizon is still in its own blocks: the
/// horizon is never above what was flushed, nor above what retention keeps.
pub proof fn horizon_is_safe(retention_ms: i64, s: StoreRange)
    requires
        retention_ms >= 0,
    ensures
        horizon_of(retention_ms, s) matches Some(h) ==> h <= s.flushed_through && h <= s.max_ts,
{
}

} // verus!
