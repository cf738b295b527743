//! Bucket accumulation and the bucket reducers.
//!
//! A window hands each point a signed digit. Points are grouped into
//! buckets by digit magnitude, with the digit's sign kept per entry, and a
//! reducer turns the buckets into the window's partial sum: a point whose
//! class is the dot product of the digits with the points' classes, modulo
//! the group order. Unsigned windows are the special case of nonnegative
//! digits.

use crate::curve::{
    gmod, lemma_gadd_fold, lemma_gadd_fold_left, lemma_gmod_add_congruent,
    lemma_gmod_scale_congruent, lemma_gmod_twice, lemma_gmul_fold, point_class, Point,
};
use crate::operations::{add_points, point_negate, scalar_multiply};
use crate::sums::{
    bucket_sum, bucket_sums, bucket_views, classes, dot, entry_class, gap_terms, ints_of_i64s,
    keyed_weighted, lemma_dot_prefix, lemma_gap_terms_total, lemma_keyed_weighted_push,
    lemma_weighted_positions_update, lemma_weighted_positions_zero,
    lemma_weighted_suffix_is_positions, suffix_keyed_total, suffix_total, weighted_positions,
    weighted_suffix,
};
use vstd::prelude::*;

verus! {

/// Every index stored in the buckets is below `n`.
pub open spec fn buckets_in_range(bs: Seq<Seq<(usize, i64)>>, n: nat) -> bool {
    forall|d: int, t: int|
        0 <= d < bs.len() && 0 <= t < bs[d].len() ==> (#[trigger] bs[d][t]).0 < n
}

/// Group the indices of the nonzero digits into buckets by digit
/// magnitude, keeping each digit's signed value with its index. Bucket 0
/// stays empty. For every assignment of classes to the indices, the
/// position-weighted bucket sums equal the digit/class dot product.
#[verifier::loop_isolation(false)]
pub(crate) fn build_buckets(values: &Vec<i64>, dmax: usize) -> (buckets: Vec<Vec<(usize, i64)>>)
    requires
        1 <= dmax <= 0xFFFF,
        forall|i: int|
            0 <= i < values@.len() ==> -(dmax as int) <= #[trigger] values@[i] <= dmax as int,
    ensures
        buckets@.len() == dmax + 1,
        buckets@[0]@.len() == 0,
        buckets_in_range(bucket_views(buckets@), values@.len()),
        forall|cls: Seq<int>|
            cls.len() == values@.len() ==> #[trigger] weighted_positions(
                bucket_sums(cls, bucket_views(buckets@)),
            ) == dot(ints_of_i64s(values@), cls),
{
    let n = values.len();
    let mut buckets: Vec<Vec<(usize, i64)>> = Vec::new();
    while buckets.len() < dmax + 1
        invariant
            buckets@.len() <= dmax + 1,
            forall|d: int| 0 <= d < buckets@.len() ==> buckets@[d]@.len() == 0,
        decreases dmax + 1 - buckets@.len(),
    {
        buckets.push(Vec::new());
    }
    proof {
        assert forall|cls: Seq<int>| cls.len() == values@.len() implies #[trigger] weighted_positions(
            bucket_sums(cls, bucket_views(buckets@)),
        ) == dot(ints_of_i64s(values@).take(0), cls.take(0)) by {
            lemma_weighted_positions_zero(bucket_sums(cls, bucket_views(buckets@)));
            assert(dot(ints_of_i64s(values@).take(0), cls.take(0)) == 0);
        }
    }
    let mut i: usize = 0;
    while i < n
        invariant
            i <= n,
            buckets@.len() == dmax + 1,
            buckets@[0]@.len() == 0,
            buckets_in_range(bucket_views(buckets@), i as nat),
            forall|cls: Seq<int>|
                cls.len() == values@.len() ==> #[trigger] weighted_positions(
                    bucket_sums(cls, bucket_views(buckets@)),
                ) == dot(ints_of_i64s(values@).take(i as int), cls.take(i as int)),
        decreases n - i,
    {
        let v = values[i];
        let ghost before = bucket_views(buckets@);
        if v != 0 {
            let a = (if v < 0 {
                -v
            } else {
                v
            }) as usize;
            buckets[a].push((i, v));
            proof {
                let after = bucket_views(buckets@);
                assert(after =~= before.update(a as int, before[a as int].push((i, v))));
                assert forall|cls: Seq<int>| cls.len() == values@.len() implies #[trigger] weighted_positions(
                    bucket_sums(cls, after),
                ) == dot(ints_of_i64s(values@).take(i + 1), cls.take(i + 1)) by {
                    let sb = bucket_sums(cls, before);
                    let sa = bucket_sums(cls, after);
                    assert(after[a as int].drop_last() =~= before[a as int]);
                    assert(after[a as int].last() == (i, v));
                    assert(bucket_sum(cls, after[a as int]) == bucket_sum(cls, before[a as int])
                        + entry_class(cls, (i, v)));
                    assert(sa =~= sb.update(a as int, sb[a as int] + entry_class(cls, (i, v))));
                    lemma_weighted_positions_update(sb, a as int, entry_class(cls, (i, v)));
                    assert((a as int) * entry_class(cls, (i, v)) == (v as int) * cls[i as int])
                        by (nonlinear_arith)
                        requires
                            (v < 0 ==> a == -v && entry_class(cls, (i, v)) == -cls[i as int]) && (v
                                >= 0 ==> a == v && entry_class(cls, (i, v)) == cls[i as int]),
                    ;
                    lemma_dot_prefix(ints_of_i64s(values@), cls, i as int);
                }
            }
        } else {
            proof {
                assert forall|cls: Seq<int>| cls.len() == values@.len() implies #[trigger] weighted_positions(
                    bucket_sums(cls, bucket_views(buckets@)),
                ) == dot(ints_of_i64s(values@).take(i + 1), cls.take(i + 1)) by {
                    lemma_dot_prefix(ints_of_i64s(values@), cls, i as int);
                    let zi = ints_of_i64s(values@)[i as int];
                    assert(zi * cls[i as int] == 0) by (nonlinear_arith)
                        requires
                            zi == 0,
                    ;
                }
            }
        }
        i = i + 1;
    }
    proof {
        assert forall|cls: Seq<int>| cls.len() == values@.len() implies #[trigger] weighted_positions(
            bucket_sums(cls, bucket_views(buckets@)),
        ) == dot(ints_of_i64s(values@), cls) by {
            assert(cls.take(n as int) =~= cls);
            assert(ints_of_i64s(values@).take(n as int) =~= ints_of_i64s(values@));
        }
    }
    buckets
}

/// Sum the points of one bucket, negated where the entry's digit is
/// negative: a point whose class is the bucket's signed class sum, modulo
/// the group order.
#[verifier::loop_isolation(false)]
fn sum_bucket(entries: &Vec<(usize, i64)>, points: &[Point]) -> (r: Point)
    requires
        forall|t: int| 0 <= t < entries@.len() ==> (#[trigger] entries@[t]).0 < points@.len(),
    ensures
        point_class(r) == gmod(bucket_sum(classes(points@), entries@)),
{
    let ghost cls = classes(points@);
    let mut acc = Point::zero();
    let mut t: usize = 0;
    while t < entries.len()
        invariant
            t <= entries@.len(),
            point_class(acc) == gmod(bucket_sum(cls, entries@.take(t as int))),
        decreases entries@.len() - t,
    {
        let (idx, v) = entries[t];
        if idx < points.len() {
            let mut p = points[idx];
            if v < 0 {
                p = point_negate(&p);
            }
            let ghost before = bucket_sum(cls, entries@.take(t as int));
            acc = add_points(acc, p);
            proof {
                assert(entries@.take(t + 1).drop_last() =~= entries@.take(t as int));
                if v < 0 {
                    lemma_gadd_fold(before, -cls[idx as int]);
                } else {
                    lemma_gadd_fold_left(before, cls[idx as int]);
                }
            }
        }
        t = t + 1;
    }
    proof {
        assert(entries@.take(entries@.len() as int) =~= entries@);
    }
    acc
}

/// Reduce the buckets of one window by the reverse scan: running over
/// digit magnitudes from the largest down to 1, keep a running suffix sum
/// of bucket sums and add it to the result at each step, which weights
/// each bucket by its digit.
#[verifier::loop_isolation(false)]
pub(crate) fn rev_scan_reduce(values: &Vec<i64>, points: &[Point], dmax: usize) -> (r: Point)
    requires
        values@.len() == points@.len(),
        1 <= dmax <= 0xFFFF,
        forall|i: int|
            0 <= i < values@.len() ==> -(dmax as int) <= #[trigger] values@[i] <= dmax as int,
    ensures
        point_class(r) == gmod(dot(ints_of_i64s(values@), classes(points@))),
{
    let ghost cls = classes(points@);
    let buckets = build_buckets(values, dmax);
    let ghost s = bucket_sums(cls, bucket_views(buckets@));
    assert(weighted_positions(s) == dot(ints_of_i64s(values@), cls));

    let mut msm_result = Point::zero();
    let mut temp = Point::zero();
    let mut d: usize = dmax;
    while d >= 1
        invariant
            d <= dmax,
            point_class(temp) == gmod(suffix_total(s, d + 1)),
            point_class(msm_result) == gmod(weighted_suffix(s, d + 1)),
        decreases d,
    {
        if buckets[d].len() > 0 {
            proof {
                assert(bucket_views(buckets@)[d as int] == buckets@[d as int]@);
            }
            let sum_of_points = sum_bucket(&buckets[d], points);
            let ghost before = suffix_total(s, d + 1);
            temp = add_points(temp, sum_of_points);
            proof {
                lemma_gadd_fold(before, s[d as int]);
                assert(suffix_total(s, d as int) == s[d as int] + before);
            }
        } else {
            proof {
                assert(bucket_views(buckets@)[d as int].len() == 0);
                assert(s[d as int] == 0);
                assert(suffix_total(s, d as int) == s[d as int] + suffix_total(s, d + 1));
            }
        }
        let ghost wbefore = weighted_suffix(s, d + 1);
        msm_result = add_points(msm_result, temp);
        proof {
            lemma_gadd_fold(wbefore, suffix_total(s, d as int));
            assert(weighted_suffix(s, d as int) == suffix_total(s, d as int) + wbefore);
        }
        d = d - 1;
    }
    proof {
        lemma_weighted_suffix_is_positions(s);
    }
    msm_result
}

/// Reduce the buckets of one window by weighting each bucket sum with a
/// scalar multiplication by its digit magnitude.
#[verifier::loop_isolation(false)]
pub(crate) fn scaled_bucket_reduce(values: &Vec<i64>, points: &[Point], dmax: usize) -> (r: Point)
    requires
        values@.len() == points@.len(),
        1 <= dmax <= 0xFFFF,
        forall|i: int|
            0 <= i < values@.len() ==> -(dmax as int) <= #[trigger] values@[i] <= dmax as int,
    ensures
        point_class(r) == gmod(dot(ints_of_i64s(values@), classes(points@))),
{
    let ghost cls = classes(points@);
    let buckets = build_buckets(values, dmax);
    let ghost s = bucket_sums(cls, bucket_views(buckets@));
    assert(weighted_positions(s) == dot(ints_of_i64s(values@), cls));

    let mut msm_result = Point::zero();
    proof {
        lemma_weighted_positions_zero(s.take(1));
    }
    let mut d: usize = 1;
    while d <= dmax
        invariant
            1 <= d <= dmax + 1,
            point_class(msm_result) == gmod(weighted_positions(s.take(d as int))),
        decreases dmax + 1 - d,
    {
        let ghost before = weighted_positions(s.take(d as int));
        proof {
            assert(s.take(d + 1).drop_last() =~= s.take(d as int));
            assert(weighted_positions(s.take(d + 1)) == before + (d as int) * s[d as int]);
        }
        if buckets[d].len() > 0 {
            proof {
                assert(bucket_views(buckets@)[d as int] == buckets@[d as int]@);
            }
            let sum_of_points = sum_bucket(&buckets[d], points);
            msm_result = add_points(msm_result, scalar_multiply(sum_of_points, d as u32));
            proof {
                lemma_gmul_fold(d as int, s[d as int]);
                lemma_gadd_fold(before, (d as int) * s[d as int]);
            }
        } else {
            proof {
                assert(s[d as int] == 0);
                assert((d as int) * s[d as int] == 0) by (nonlinear_arith)
                    requires
                        s[d as int] == 0,
                ;
            }
        }
        d = d + 1;
    }
    proof {
        assert(s.take((dmax + 1) as int) =~= s);
    }
    msm_result
}

/// The keys of this window's sub-sum scan: the distinct digit magnitudes
/// whose buckets are nonempty, in ascending order, with 0 (whose bucket is
/// empty) as the scan anchor. For every assignment of classes, the keyed
/// weighted bucket sums equal the position-weighted bucket sums: only
/// empty buckets are skipped.
#[verifier::loop_isolation(false)]
fn collect_keys(buckets: &Vec<Vec<(usize, i64)>>, dmax: usize) -> (keys: Vec<usize>)
    requires
        1 <= dmax <= 0xFFFF,
        buckets@.len() == dmax + 1,
        buckets@[0]@.len() == 0,
    ensures
        1 <= keys@.len() <= dmax + 1,
        keys@[0] == 0,
        forall|t1: int, t2: int|
            0 <= t1 < t2 < keys@.len() ==> #[trigger] keys@[t1] < #[trigger] keys@[t2],
        forall|t: int| 0 <= t < keys@.len() ==> #[trigger] keys@[t] <= dmax,
        forall|cls: Seq<int>|
            #[trigger] keyed_weighted(bucket_sums(cls, bucket_views(buckets@)), keys@, 0)
                == weighted_positions(bucket_sums(cls, bucket_views(buckets@))),
{
    let mut keys: Vec<usize> = Vec::new();
    keys.push(0);
    proof {
        assert forall|cls: Seq<int>| #[trigger] keyed_weighted(
            bucket_sums(cls, bucket_views(buckets@)),
            keys@,
            0,
        ) == weighted_positions(bucket_sums(cls, bucket_views(buckets@)).take(1)) by {
            let s = bucket_sums(cls, bucket_views(buckets@));
            assert(s[0] == 0);
            assert(keyed_weighted(s, keys@, 1) == 0);
            lemma_weighted_positions_zero(s.take(1));
            assert(0int * s[0] == 0) by (nonlinear_arith);
        }
    }
    let mut d: usize = 1;
    while d <= dmax
        invariant
            1 <= d <= dmax + 1,
            1 <= keys@.len() <= d,
            keys@[0] == 0,
            forall|t1: int, t2: int|
                0 <= t1 < t2 < keys@.len() ==> #[trigger] keys@[t1] < #[trigger] keys@[t2],
            forall|t: int| 0 <= t < keys@.len() ==> #[trigger] keys@[t] < d,
            forall|cls: Seq<int>|
                #[trigger] keyed_weighted(bucket_sums(cls, bucket_views(buckets@)), keys@, 0)
                    == weighted_positions(bucket_sums(cls, bucket_views(buckets@)).take(d as int)),
        decreases dmax + 1 - d,
    {
        let ghost before = keys@;
        if buckets[d].len() > 0 {
            keys.push(d);
        }
        proof {
            assert forall|cls: Seq<int>| #[trigger] keyed_weighted(
                bucket_sums(cls, bucket_views(buckets@)),
                keys@,
                0,
            ) == weighted_positions(bucket_sums(cls, bucket_views(buckets@)).take(d + 1)) by {
                let s = bucket_sums(cls, bucket_views(buckets@));
                assert(s.take(d + 1).drop_last() =~= s.take(d as int));
                assert(weighted_positions(s.take(d + 1)) == weighted_positions(s.take(d as int))
                    + (d as int) * s[d as int]);
                if buckets@[d as int]@.len() > 0 {
                    lemma_keyed_weighted_push(s, before, d, 0);
                } else {
                    assert(s[d as int] == 0);
                    assert((d as int) * s[d as int] == 0) by (nonlinear_arith)
                        requires
                            s[d as int] == 0,
                    ;
                }
            }
        }
        d = d + 1;
    }
    proof {
        assert forall|cls: Seq<int>| #[trigger] keyed_weighted(
            bucket_sums(cls, bucket_views(buckets@)),
            keys@,
            0,
        ) == weighted_positions(bucket_sums(cls, bucket_views(buckets@))) by {
            let s = bucket_sums(cls, bucket_views(buckets@));
            assert(s.take((dmax + 1) as int) =~= s);
        }
    }
    keys
}

/// The largest gap between consecutive keys, at least 1: the number of
/// scratch slots the sub-sum scan needs.
#[verifier::loop_isolation(false)]
fn max_key_gap(keys: &Vec<usize>, dmax: usize) -> (max_diff: usize)
    requires
        1 <= keys@.len(),
        forall|t1: int, t2: int|
            0 <= t1 < t2 < keys@.len() ==> #[trigger] keys@[t1] < #[trigger] keys@[t2],
        forall|t: int| 0 <= t < keys@.len() ==> #[trigger] keys@[t] <= dmax,
        1 <= dmax <= 0xFFFF,
    ensures
        1 <= max_diff <= dmax,
        forall|u: int| 1 <= u < keys@.len() ==> #[trigger] keys@[u] - keys@[u - 1] <= max_diff,
{
    let m = keys.len();
    let mut max_diff: usize = 1;
    let mut t: usize = 1;
    while t < m
        invariant
            1 <= t <= m,
            1 <= max_diff <= dmax,
            forall|u: int| 1 <= u < t ==> #[trigger] keys@[u] - keys@[u - 1] <= max_diff,
        decreases m - t,
    {
        let g = keys[t] - keys[t - 1];
        if g > max_diff {
            max_diff = g;
        }
        t = t + 1;
    }
    max_diff
}

/// A scratch array of identity points.
#[verifier::loop_isolation(false)]
fn zero_points(count: usize) -> (tmp: Vec<Point>)
    ensures
        tmp@.len() == count,
        forall|g: int| 0 <= g < count ==> point_class(#[trigger] tmp@[g]) == 0,
{
    let mut tmp: Vec<Point> = Vec::new();
    while tmp.len() < count
        invariant
            tmp@.len() <= count,
            forall|g: int| 0 <= g < tmp@.len() ==> point_class(#[trigger] tmp@[g]) == 0,
        decreases count - tmp@.len(),
    {
        tmp.push(Point::zero());
    }
    tmp
}

/// Updating slot 0 leaves the position-weighted sum unchanged: position 0
/// carries weight 0.
proof fn lemma_slot0_update(st_before: Seq<int>, new0: int)
    requires
        1 <= st_before.len(),
    ensures
        weighted_positions(st_before.update(0, new0)) == weighted_positions(st_before),
{
    lemma_weighted_positions_update(st_before, 0, new0 - st_before[0]);
    assert(st_before.update(0, st_before[0] + (new0 - st_before[0])) =~= st_before.update(
        0,
        new0,
    ));
    assert(0int * (new0 - st_before[0]) == 0) by (nonlinear_arith);
}

/// A gap write: slot `g` grows by the running sum, whose class is the
/// reduced suffix total `sks`; so the position-weighted sum grows by
/// `g * sks`, modulo the group order.
proof fn lemma_gap_write(st0: Seq<int>, g: int, new_g: int, wprhs: int, t0: int, sks: int)
    requires
        0 <= g < st0.len(),
        gmod(weighted_positions(st0)) == gmod(wprhs),
        new_g == gmod(st0[g] + t0),
        t0 == gmod(sks),
    ensures
        gmod(weighted_positions(st0.update(g, new_g))) == gmod(wprhs + g * sks),
{
    let delta = new_g - st0[g];
    lemma_weighted_positions_update(st0, g, delta);
    assert(st0.update(g, st0[g] + delta) =~= st0.update(g, new_g));
    assert(gmod(delta) == gmod(sks)) by {
        lemma_gadd_fold_left(st0[g] + gmod(sks), -st0[g]);
        lemma_gmod_twice(sks);
    }
    lemma_gmod_scale_congruent(g, delta, sks);
    lemma_gmod_add_congruent(weighted_positions(st0), g * delta, g * sks);
    lemma_gmod_add_congruent(g * sks, weighted_positions(st0), wprhs);
}

/// The descending scan of the sub-sum reduction: walk the keys from the
/// largest magnitude down, keep the running sum of their bucket sums in
/// slot 0 of the scratch array, and add that running sum at the slot
/// indexed by the gap to the next key.
#[verifier::loop_isolation(false)]
#[verifier::rlimit(100)]
fn subsum_place(
    buckets: &Vec<Vec<(usize, i64)>>,
    keys: &Vec<usize>,
    points: &[Point],
    max_diff: usize,
) -> (tmp: Vec<Point>)
    requires
        1 <= keys@.len(),
        keys@[0] == 0,
        forall|t1: int, t2: int|
            0 <= t1 < t2 < keys@.len() ==> #[trigger] keys@[t1] < #[trigger] keys@[t2],
        forall|t: int| 0 <= t < keys@.len() ==> #[trigger] keys@[t] < buckets@.len(),
        forall|u: int| 1 <= u < keys@.len() ==> #[trigger] keys@[u] - keys@[u - 1] <= max_diff,
        1 <= max_diff <= 0xFFFF,
        buckets_in_range(bucket_views(buckets@), points@.len()),
    ensures
        tmp@.len() == max_diff + 1,
        gmod(weighted_positions(classes(tmp@))) == gmod(
            gap_terms(bucket_sums(classes(points@), bucket_views(buckets@)), keys@, 1),
        ),
{
    let ghost cls = classes(points@);
    let ghost s = bucket_sums(cls, bucket_views(buckets@));
    let m = keys.len();
    let mut tmp = zero_points(max_diff + 1);
    proof {
        lemma_weighted_positions_zero(classes(tmp@));
        assert(suffix_keyed_total(s, keys@, m as int) == 0);
        assert(gap_terms(s, keys@, m as int) == 0);
    }
    let mut u: usize = m;
    while u >= 1
        invariant
            u <= m,
            tmp@.len() == max_diff + 1,
            point_class(tmp@[0]) == gmod(suffix_keyed_total(s, keys@, u as int)),
            gmod(weighted_positions(classes(tmp@))) == gmod(
                gap_terms(s, keys@, if u >= 1 { u as int } else { 1 }),
            ),
        decreases u,
    {
        let t = u - 1;
        let k = keys[t];
        proof {
            assert(bucket_views(buckets@)[k as int] == buckets@[k as int]@);
        }
        let sum_of_points = sum_bucket(&buckets[k], points);
        let ghost st_before = classes(tmp@);
        let new_t0 = add_points(tmp[0], sum_of_points);
        tmp[0] = new_t0;
        proof {
            assert(classes(tmp@) =~= st_before.update(0, point_class(new_t0)));
            lemma_slot0_update(st_before, point_class(new_t0));
            lemma_gadd_fold(suffix_keyed_total(s, keys@, u as int), s[k as int]);
            assert(suffix_keyed_total(s, keys@, t as int) == s[k as int] + suffix_keyed_total(
                s,
                keys@,
                u as int,
            ));
        }
        if t > 0 {
            let g = k - keys[t - 1];
            assert(1 <= g <= max_diff);
            if g >= 1 && g < tmp.len() {
                let ghost st0 = classes(tmp@);
                let ghost old_g = point_class(tmp@[g as int]);
                let new_g = add_points(tmp[g], tmp[0]);
                tmp[g] = new_g;
                proof {
                    let sks = suffix_keyed_total(s, keys@, t as int);
                    assert(classes(tmp@) =~= st0.update(g as int, point_class(new_g)));
                    lemma_gap_write(
                        st0,
                        g as int,
                        point_class(new_g),
                        gap_terms(s, keys@, u as int),
                        point_class(tmp@[0]),
                        sks,
                    );
                    assert(gap_terms(s, keys@, t as int) == (k - keys@[t - 1]) * sks + gap_terms(
                        s,
                        keys@,
                        u as int,
                    ));
                }
            }
        }
        u = t;
    }
    tmp
}

/// The reverse scan over the scratch array: with the placed sums in the
/// gap-indexed slots, the scan telescopes them into the digit-weighted
/// bucket total.
#[verifier::loop_isolation(false)]
fn scan_scratch(tmp: &Vec<Point>) -> (r: Point)
    requires
        1 <= tmp@.len(),
    ensures
        point_class(r) == gmod(weighted_positions(classes(tmp@))),
{
    let ghost st = classes(tmp@);
    let mut temp = Point::zero();
    let mut msm_result = Point::zero();
    let mut g: usize = tmp.len() - 1;
    while g >= 1
        invariant
            g <= tmp@.len() - 1,
            point_class(temp) == gmod(suffix_total(st, g + 1)),
            point_class(msm_result) == gmod(weighted_suffix(st, g + 1)),
        decreases g,
    {
        let ghost before = suffix_total(st, g + 1);
        temp = add_points(temp, tmp[g]);
        proof {
            lemma_gadd_fold_left(before, st[g as int]);
            assert(suffix_total(st, g as int) == st[g as int] + before);
        }
        let ghost wbefore = weighted_suffix(st, g + 1);
        msm_result = add_points(msm_result, temp);
        proof {
            lemma_gadd_fold(wbefore, suffix_total(st, g as int));
            assert(weighted_suffix(st, g as int) == suffix_total(st, g as int) + wbefore);
        }
        g = g - 1;
    }
    proof {
        if tmp@.len() > 1 {
            lemma_weighted_suffix_is_positions(st);
        } else {
            assert(weighted_positions(st) == weighted_positions(st.drop_last()) + 0 * st.last());
            assert(0int * st.last() == 0) by (nonlinear_arith);
            assert(weighted_suffix(st, 1) == 0);
        }
    }
    msm_result
}

/// Reduce the buckets of one window by sub-sum accumulation: walk the
/// distinct digit magnitudes present in descending order, keeping a
/// running sum of bucket sums in slot 0 of a scratch array, and place that
/// running sum at the slot indexed by the gap to the next magnitude; a
/// final reverse scan over the scratch array telescopes the placed sums
/// into the same digit-weighted total the plain reverse scan computes, in
/// time linear in the number of distinct magnitudes.
pub(crate) fn subsum_reduce(values: &Vec<i64>, points: &[Point], dmax: usize) -> (r: Point)
    requires
        values@.len() == points@.len(),
        1 <= dmax <= 0xFFFF,
        forall|i: int|
            0 <= i < values@.len() ==> -(dmax as int) <= #[trigger] values@[i] <= dmax as int,
    ensures
        point_class(r) == gmod(dot(ints_of_i64s(values@), classes(points@))),
{
    let ghost cls = classes(points@);
    let buckets = build_buckets(values, dmax);
    let ghost s = bucket_sums(cls, bucket_views(buckets@));
    assert(weighted_positions(s) == dot(ints_of_i64s(values@), cls));
    let keys = collect_keys(&buckets, dmax);
    let max_diff = max_key_gap(&keys, dmax);
    let tmp = subsum_place(&buckets, &keys, points, max_diff);
    let msm_result = scan_scratch(&tmp);
    proof {
        lemma_gap_terms_total(s, keys@);
        assert(keyed_weighted(s, keys@, 0) == weighted_positions(s));
    }
    msm_result
}

/// The values of an unsigned window as signed digits.
#[verifier::loop_isolation(false)]
pub(crate) fn unsigned_digits(values: &Vec<u32>) -> (r: Vec<i64>)
    ensures
        r@.len() == values@.len(),
        forall|i: int| 0 <= i < r@.len() ==> #[trigger] r@[i] == values@[i] as i64,
{
    let mut r: Vec<i64> = Vec::new();
    let mut i: usize = 0;
    while i < values.len()
        invariant
            i <= values@.len(),
            r@.len() == i,
            forall|t: int| 0 <= t < i ==> #[trigger] r@[t] == values@[t] as i64,
        decreases values@.len() - i,
    {
        r.push(values[i] as i64);
        i = i + 1;
    }
    r
}

/// A copy of a window's signed digits.
#[verifier::loop_isolation(false)]
pub(crate) fn copy_digits(values: &Vec<i64>) -> (r: Vec<i64>)
    ensures
        r@ == values@,
{
    let mut r: Vec<i64> = Vec::new();
    let mut i: usize = 0;
    while i < values.len()
        invariant
            i <= values@.len(),
            r@ =~= values@.take(i as int),
        decreases values@.len() - i,
    {
        r.push(values[i]);
        i = i + 1;
    }
    proof {
        assert(values@.take(values@.len() as int) =~= values@);
    }
    r
}

/// A copy of a window's unsigned digits.
#[verifier::loop_isolation(false)]
pub(crate) fn copy_values(values: &Vec<u32>) -> (r: Vec<u32>)
    ensures
        r@ == values@,
{
    let mut r: Vec<u32> = Vec::new();
    let mut i: usize = 0;
    while i < values.len()
        invariant
            i <= values@.len(),
            r@ =~= values@.take(i as int),
        decreases values@.len() - i,
    {
        r.push(values[i]);
        i = i + 1;
    }
    proof {
        assert(values@.take(values@.len() as int) =~= values@);
    }
    r
}

/// The largest digit magnitude present, at least 1: the number of buckets
/// a reducer must materialize for these digits.
#[verifier::loop_isolation(false)]
pub(crate) fn max_magnitude(values: &Vec<i64>) -> (dmax: usize)
    requires
        forall|i: int| 0 <= i < values@.len() ==> -0xFFFF <= #[trigger] values@[i] <= 0xFFFF,
    ensures
        1 <= dmax <= 0xFFFF,
        forall|i: int|
            0 <= i < values@.len() ==> -(dmax as int) <= #[trigger] values@[i] <= dmax as int,
{
    let mut dmax: usize = 1;
    let mut i: usize = 0;
    while i < values.len()
        invariant
            i <= values@.len(),
            1 <= dmax <= 0xFFFF,
            forall|t: int|
                0 <= t < i ==> -(dmax as int) <= #[trigger] values@[t] <= dmax as int,
        decreases values@.len() - i,
    {
        let v = values[i];
        let a = (if v < 0 {
            -v
        } else {
            v
        }) as usize;
        if a > dmax {
            dmax = a;
        }
        i = i + 1;
    }
    dmax
}

} // verus!
