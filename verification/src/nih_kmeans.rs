//! K-means clustering over RGB samples, in exact arithmetic.
//!
//! A centroid is kept as its cluster's channel sums and member count, so a
//! centroid is the exact rational mean of its members. Distances between a
//! sample and two centroids are compared by cross-multiplying the squared
//! numerators with the counts' squares: every comparison is exact, which is
//! why sample buffers are capped at `0x200_0000` samples (the products then
//! fit 128 bits).
//!
//! Seeding is the deterministic farthest-point heuristic: the first sample,
//! then repeatedly the sample farthest from its nearest seed. Refinement
//! runs a fixed iteration budget: assign every sample to its nearest
//! centroid, then replace the centroids by the means of the non-empty
//! clusters, in centroid order. The output rounds each mean to the nearest
//! integer channel, halves away from zero.

use vstd::prelude::*;

use crate::color::Color;

verus! {

/// The squared Euclidean distance of two exact colors.
pub open spec fn euclid2(a: Color, b: Color) -> int {
    let dr = a.r - b.r;
    let dg = a.g - b.g;
    let db = a.b - b.b;
    dr * dr + dg * dg + db * db
}

/// The squared distance from a color to its nearest seed.
pub open spec fn min_seed_dist2(cents: Seq<Color>, c: Color) -> int
    decreases cents.len(),
{
    if cents.len() <= 1 {
        euclid2(cents[0], c)
    } else {
        let rest = min_seed_dist2(cents.drop_last(), c);
        if euclid2(cents.last(), c) < rest {
            euclid2(cents.last(), c)
        } else {
            rest
        }
    }
}

/// The index of the sample farthest from its nearest seed; ties go to the
/// greatest index.
pub open spec fn farthest_sample(samples: Seq<Color>, cents: Seq<Color>) -> int
    decreases samples.len(),
{
    if samples.len() <= 1 {
        0
    } else {
        let k = farthest_sample(samples.drop_last(), cents);
        if min_seed_dist2(cents, samples.last()) >= min_seed_dist2(cents, samples[k]) {
            samples.len() - 1
        } else {
            k
        }
    }
}

/// Grow the seed set to `k` centroids, farthest sample first.
pub open spec fn seeds_rec(samples: Seq<Color>, cents: Seq<Color>, k: int) -> Seq<Color>
    decreases k - cents.len(),
{
    if cents.len() >= k {
        cents
    } else {
        seeds_rec(samples, cents.push(samples[farthest_sample(samples, cents)]), k)
    }
}

/// The seed centroids: every sample when `k` covers them all, else the
/// first sample followed by farthest-point picks up to `k`.
pub open spec fn seed_centroids(samples: Seq<Color>, k: int) -> Seq<Color> {
    if k >= samples.len() {
        samples
    } else {
        seeds_rec(samples, seq![samples[0]], k)
    }
}

/// The farthest-sample index is in range.
pub proof fn lemma_farthest_in_range(samples: Seq<Color>, cents: Seq<Color>)
    requires
        samples.len() >= 1,
    ensures
        0 <= farthest_sample(samples, cents) < samples.len(),
    decreases samples.len(),
{
    if samples.len() > 1 {
        lemma_farthest_in_range(samples.drop_last(), cents);
    }
}

/// The seed set reaches exactly `k` centroids when it starts below `k`.
pub proof fn lemma_seeds_rec_len(samples: Seq<Color>, cents: Seq<Color>, k: int)
    requires
        samples.len() >= 1,
        cents.len() <= k,
    ensures
        seeds_rec(samples, cents, k).len() == k,
    decreases k - cents.len(),
{
    if cents.len() < k {
        lemma_seeds_rec_len(
            samples,
            cents.push(samples[farthest_sample(samples, cents)]),
            k,
        );
    }
}

} // verus!

verus! {

/// A centroid as exact data: channel sums and member count.
pub open spec fn quad_of_color(c: Color) -> (int, int, int, int) {
    (c.r as int, c.g as int, c.b as int, 1int)
}

/// The centroids a seed color list starts refinement from.
pub open spec fn quads_of_colors(cs: Seq<Color>) -> Seq<(int, int, int, int)> {
    cs.map_values(|c: Color| quad_of_color(c))
}

/// The squared distance from a color to a centroid, scaled by the squared
/// member count (the centroid is the rational `sums / count`).
pub open spec fn dist2_num(q: (int, int, int, int), c: Color) -> int {
    let dr = c.r * q.3 - q.0;
    let dg = c.g * q.3 - q.1;
    let db = c.b * q.3 - q.2;
    dr * dr + dg * dg + db * db
}

/// Whether `q1` is strictly closer to `c` than `q2`, compared exactly by
/// cross-multiplying the scaled squared distances.
pub open spec fn closer(q1: (int, int, int, int), q2: (int, int, int, int), c: Color) -> bool {
    dist2_num(q1, c) * (q2.3 * q2.3) < dist2_num(q2, c) * (q1.3 * q1.3)
}

/// The index of the centroid nearest to a color; ties go to the least
/// index.
pub open spec fn nearest_centroid(qs: Seq<(int, int, int, int)>, c: Color) -> int
    decreases qs.len(),
{
    if qs.len() <= 1 {
        0
    } else {
        let k = nearest_centroid(qs.drop_last(), c);
        if closer(qs.last(), qs[k], c) {
            qs.len() - 1
        } else {
            k
        }
    }
}

/// The channel sums and member count of cluster `j`: over all samples whose
/// nearest centroid is `j`.
pub open spec fn cluster_sums(
    qs: Seq<(int, int, int, int)>,
    samples: Seq<Color>,
    j: int,
) -> (int, int, int, int)
    decreases samples.len(),
{
    if samples.len() == 0 {
        (0int, 0int, 0int, 0int)
    } else {
        let rest = cluster_sums(qs, samples.drop_last(), j);
        if nearest_centroid(qs, samples.last()) == j {
            (
                rest.0 + samples.last().r,
                rest.1 + samples.last().g,
                rest.2 + samples.last().b,
                rest.3 + 1,
            )
        } else {
            rest
        }
    }
}

/// One refinement round's new centroids, from cluster `j` on: the non-empty
/// clusters' sums, in cluster order.
pub open spec fn step_centroids_from(
    qs: Seq<(int, int, int, int)>,
    samples: Seq<Color>,
    j: int,
) -> Seq<(int, int, int, int)>
    decreases qs.len() - j,
{
    if j < 0 || j >= qs.len() {
        Seq::empty()
    } else {
        let s = cluster_sums(qs, samples, j);
        let rest = step_centroids_from(qs, samples, j + 1);
        if s.3 > 0 {
            seq![s] + rest
        } else {
            rest
        }
    }
}

/// One refinement round's new centroids.
pub open spec fn step_centroids(qs: Seq<(int, int, int, int)>, samples: Seq<Color>) -> Seq<
    (int, int, int, int),
> {
    step_centroids_from(qs, samples, 0)
}

/// The centroids after a fixed budget of refinement rounds.
pub open spec fn iterate_centroids(
    qs: Seq<(int, int, int, int)>,
    samples: Seq<Color>,
    iters: nat,
) -> Seq<(int, int, int, int)>
    decreases iters,
{
    if iters == 0 {
        qs
    } else {
        iterate_centroids(step_centroids(qs, samples), samples, (iters - 1) as nat)
    }
}

/// A channel mean rounded to the nearest integer, halves away from zero.
pub open spec fn round_channel(sum: int, n: int) -> int {
    (2 * sum + n) / (2 * n)
}

/// A centroid rounded to an exact color.
pub open spec fn round_quad(q: (int, int, int, int)) -> Color {
    Color {
        r: round_channel(q.0, q.3) as u8,
        g: round_channel(q.1, q.3) as u8,
        b: round_channel(q.2, q.3) as u8,
    }
}

/// The palette k-means gives a sample buffer: seed, refine for the fixed
/// budget, round each centroid to a color.
pub open spec fn kmeans_palette(samples: Seq<Color>, k: int, max_iter: nat) -> Seq<Color> {
    iterate_centroids(quads_of_colors(seed_centroids(samples, k)), samples, max_iter).map_values(
        |q: (int, int, int, int)| round_quad(q),
    )
}

/// A centroid's data is in range for a sample buffer of length `n`: at
/// least one member, at most all of them, channel sums at most 255 per
/// member.
pub open spec fn quad_ok(q: (int, int, int, int), n: int) -> bool {
    &&& 1 <= q.3 <= n
    &&& 0 <= q.0 <= 255 * q.3
    &&& 0 <= q.1 <= 255 * q.3
    &&& 0 <= q.2 <= 255 * q.3
}

/// Every centroid's data is in range.
pub open spec fn quads_ok(qs: Seq<(int, int, int, int)>, n: int) -> bool {
    forall|j: int| 0 <= j < qs.len() ==> quad_ok(#[trigger] qs[j], n)
}

/// The nearest-centroid index is in range.
pub proof fn lemma_nearest_centroid_in_range(qs: Seq<(int, int, int, int)>, c: Color)
    requires
        qs.len() >= 1,
    ensures
        0 <= nearest_centroid(qs, c) < qs.len(),
    decreases qs.len(),
{
    if qs.len() > 1 {
        lemma_nearest_centroid_in_range(qs.drop_last(), c);
    }
}

/// A cluster's sums are bounded by its member count, which never exceeds
/// the sample count.
pub proof fn lemma_cluster_sums_bounds(
    qs: Seq<(int, int, int, int)>,
    samples: Seq<Color>,
    j: int,
)
    ensures
        0 <= cluster_sums(qs, samples, j).3 <= samples.len(),
        0 <= cluster_sums(qs, samples, j).0 <= 255 * cluster_sums(qs, samples, j).3,
        0 <= cluster_sums(qs, samples, j).1 <= 255 * cluster_sums(qs, samples, j).3,
        0 <= cluster_sums(qs, samples, j).2 <= 255 * cluster_sums(qs, samples, j).3,
    decreases samples.len(),
{
    if samples.len() > 0 {
        lemma_cluster_sums_bounds(qs, samples.drop_last(), j);
    }
}

/// A cluster with a member among the samples is non-empty.
pub proof fn lemma_cluster_sums_member(
    qs: Seq<(int, int, int, int)>,
    samples: Seq<Color>,
    i: int,
)
    requires
        0 <= i < samples.len(),
    ensures
        cluster_sums(qs, samples, nearest_centroid(qs, samples[i])).3 >= 1,
    decreases samples.len(),
{
    let j = nearest_centroid(qs, samples[i]);
    lemma_cluster_sums_bounds(qs, samples.drop_last(), j);
    if i == samples.len() - 1 {
    } else {
        lemma_cluster_sums_member(qs, samples.drop_last(), i);
        assert(samples.drop_last()[i] == samples[i]);
    }
}

/// A non-empty cluster at or past `j` puts at least one centroid in the
/// round's output.
pub proof fn lemma_step_from_nonempty(
    qs: Seq<(int, int, int, int)>,
    samples: Seq<Color>,
    j: int,
    j0: int,
)
    requires
        0 <= j <= j0 < qs.len(),
        cluster_sums(qs, samples, j0).3 >= 1,
    ensures
        step_centroids_from(qs, samples, j).len() >= 1,
    decreases qs.len() - j,
{
    if j < j0 {
        lemma_step_from_nonempty(qs, samples, j + 1, j0);
    }
}

/// A refinement round keeps at least one centroid and never adds any, and
/// its centroids' data stays in range.
pub proof fn lemma_step_bounds(qs: Seq<(int, int, int, int)>, samples: Seq<Color>, j: int)
    requires
        0 <= j <= qs.len(),
    ensures
        step_centroids_from(qs, samples, j).len() <= qs.len() - j,
        quads_ok(step_centroids_from(qs, samples, j), samples.len() as int),
    decreases qs.len() - j,
{
    if j < qs.len() {
        lemma_step_bounds(qs, samples, j + 1);
        lemma_cluster_sums_bounds(qs, samples, j);
        let s = cluster_sums(qs, samples, j);
        let rest = step_centroids_from(qs, samples, j + 1);
        if s.3 > 0 {
            assert forall|l: int|
                0 <= l < (seq![s] + rest).len() implies quad_ok(
                #[trigger] (seq![s] + rest)[l],
                samples.len() as int,
            ) by {
                if l > 0 {
                    assert((seq![s] + rest)[l] == rest[l - 1]);
                }
            }
        }
    }
}

/// Across the whole refinement budget the centroid count stays between one
/// and the seed count, and the centroids' data stays in range.
pub proof fn lemma_iterate_bounds(
    qs: Seq<(int, int, int, int)>,
    samples: Seq<Color>,
    iters: nat,
)
    requires
        samples.len() >= 1,
        qs.len() >= 1,
        quads_ok(qs, samples.len() as int),
    ensures
        1 <= iterate_centroids(qs, samples, iters).len() <= qs.len(),
        quads_ok(iterate_centroids(qs, samples, iters), samples.len() as int),
    decreases iters,
{
    if iters > 0 {
        lemma_nearest_centroid_in_range(qs, samples[0]);
        lemma_cluster_sums_member(qs, samples, 0);
        lemma_step_from_nonempty(qs, samples, 0, nearest_centroid(qs, samples[0]));
        lemma_step_bounds(qs, samples, 0);
        lemma_iterate_bounds(step_centroids(qs, samples), samples, (iters - 1) as nat);
    }
}

} // verus!

verus! {

/// The exact data of an executable centroid accumulator.
pub open spec fn quad_view(q: (u64, u64, u64, u64)) -> (int, int, int, int) {
    (q.0 as int, q.1 as int, q.2 as int, q.3 as int)
}

/// The exact data of a centroid accumulator list.
pub open spec fn quads_view(qs: Seq<(u64, u64, u64, u64)>) -> Seq<(int, int, int, int)> {
    qs.map_values(|q: (u64, u64, u64, u64)| quad_view(q))
}

fn euclid2_exec(a: &Color, b: &Color) -> (d: u32)
    ensures
        d == euclid2(*a, *b),
        d <= 195_075,
{
    let dr: u32 = if a.r >= b.r {
        (a.r - b.r) as u32
    } else {
        (b.r - a.r) as u32
    };
    let dg: u32 = if a.g >= b.g {
        (a.g - b.g) as u32
    } else {
        (b.g - a.g) as u32
    };
    let db: u32 = if a.b >= b.b {
        (a.b - b.b) as u32
    } else {
        (b.b - a.b) as u32
    };
    proof {
        assert(dr * dr <= 65025 && dg * dg <= 65025 && db * db <= 65025) by (nonlinear_arith)
            requires
                0 <= dr <= 255,
                0 <= dg <= 255,
                0 <= db <= 255,
        ;
        assert((a.r - b.r) * (a.r - b.r) == dr * dr && (a.g - b.g) * (a.g - b.g) == dg * dg && (
        a.b - b.b) * (a.b - b.b) == db * db) by (nonlinear_arith)
            requires
                dr == if a.r >= b.r {
                    a.r - b.r
                } else {
                    b.r - a.r
                },
                dg == if a.g >= b.g {
                    a.g - b.g
                } else {
                    b.g - a.g
                },
                db == if a.b >= b.b {
                    a.b - b.b
                } else {
                    b.b - a.b
                },
        ;
    }
    dr * dr + dg * dg + db * db
}

fn min_seed_dist_exec(cents: &Vec<Color>, c: &Color) -> (d: u32)
    requires
        cents@.len() >= 1,
    ensures
        d == min_seed_dist2(cents@, *c),
        d <= 195_075,
{
    let mut best: u32 = euclid2_exec(&cents[0], c);
    proof {
        assert(cents@.take(1).len() == 1);
        assert(cents@.take(1)[0] == cents@[0]);
    }
    let n = cents.len();
    let mut i: usize = 1;
    while i < n
        invariant
            n == cents@.len(),
            1 <= i <= n,
            best == min_seed_dist2(cents@.take(i as int), *c),
            best <= 195_075,
        decreases n - i,
    {
        let d = euclid2_exec(&cents[i], c);
        proof {
            let t = cents@.take(i + 1);
            assert(t.drop_last() =~= cents@.take(i as int));
            assert(t.last() == cents@[i as int]);
        }
        if d < best {
            best = d;
        }
        i = i + 1;
    }
    proof {
        assert(cents@.take(n as int) =~= cents@);
    }
    best
}

fn dist2_num_exec(q: &(u64, u64, u64, u64), c: &Color) -> (d: u128)
    requires
        quad_ok(quad_view(*q), 0x200_0000),
    ensures
        d == dist2_num(quad_view(*q), *c),
        d <= 0x10_0000_0000_0000_0000,
{
    proof {
        assert((c.r as int) * (q.3 as int) <= 255 * 0x200_0000 && (c.r as int) * (q.3 as int) >= 0
            && (c.g as int) * (q.3 as int) <= 255 * 0x200_0000 && (c.g as int) * (q.3 as int) >= 0
            && (c.b as int) * (q.3 as int) <= 255 * 0x200_0000 && (c.b as int) * (q.3 as int)
            >= 0) by (nonlinear_arith)
            requires
                0 <= c.r <= 255,
                0 <= c.g <= 255,
                0 <= c.b <= 255,
                0 <= q.3 <= 0x200_0000,
        ;
        assert(q.0 <= 255 * 0x200_0000 && q.1 <= 255 * 0x200_0000 && q.2 <= 255 * 0x200_0000) by {
            assert(255 * (q.3 as int) <= 255 * 0x200_0000);
        }
    }
    let pr: u64 = c.r as u64 * q.3;
    let pg: u64 = c.g as u64 * q.3;
    let pb: u64 = c.b as u64 * q.3;
    let dr: u64 = if pr >= q.0 {
        pr - q.0
    } else {
        q.0 - pr
    };
    let dg: u64 = if pg >= q.1 {
        pg - q.1
    } else {
        q.1 - pg
    };
    let db: u64 = if pb >= q.2 {
        pb - q.2
    } else {
        q.2 - pb
    };
    proof {
        let bound: int = 255int * 0x200_0000;
        assert(dr * dr <= bound * bound && dg * dg <= bound * bound && db * db <= bound * bound)
            by (nonlinear_arith)
            requires
                bound == 255 * 0x200_0000,
                0 <= dr <= bound,
                0 <= dg <= bound,
                0 <= db <= bound,
        ;
        let vr = (c.r as int) * (q.3 as int) - q.0;
        let vg = (c.g as int) * (q.3 as int) - q.1;
        let vb = (c.b as int) * (q.3 as int) - q.2;
        assert(vr * vr == dr * dr && vg * vg == dg * dg && vb * vb == db * db)
            by (nonlinear_arith)
            requires
                dr == if vr >= 0 {
                    vr
                } else {
                    -vr
                },
                dg == if vg >= 0 {
                    vg
                } else {
                    -vg
                },
                db == if vb >= 0 {
                    vb
                } else {
                    -vb
                },
        ;
    }
    dr as u128 * dr as u128 + dg as u128 * dg as u128 + db as u128 * db as u128
}

fn closer_exec(q1: &(u64, u64, u64, u64), q2: &(u64, u64, u64, u64), c: &Color) -> (r: bool)
    requires
        quad_ok(quad_view(*q1), 0x200_0000),
        quad_ok(quad_view(*q2), 0x200_0000),
    ensures
        r == closer(quad_view(*q1), quad_view(*q2), *c),
{
    let d1 = dist2_num_exec(q1, c);
    let d2 = dist2_num_exec(q2, c);
    proof {
        assert((q2.3 as int) * (q2.3 as int) <= 0x200_0000 * 0x200_0000 && (q1.3 as int) * (
        q1.3 as int) <= 0x200_0000 * 0x200_0000 && (q2.3 as int) * (q2.3 as int) >= 0 && (
        q1.3 as int) * (q1.3 as int) >= 0) by (nonlinear_arith)
            requires
                0 <= q1.3 <= 0x200_0000,
                0 <= q2.3 <= 0x200_0000,
        ;
        let dbound: int = 0x10_0000_0000_0000_0000;
        let nbound: int = 0x200_0000int * 0x200_0000;
        assert((d1 as int) * ((q2.3 as int) * (q2.3 as int)) <= dbound * nbound && (d1 as int) * ((
        q2.3 as int) * (q2.3 as int)) >= 0 && (d2 as int) * ((q1.3 as int) * (q1.3 as int))
            <= dbound * nbound && (d2 as int) * ((q1.3 as int) * (q1.3 as int)) >= 0)
            by (nonlinear_arith)
            requires
                dbound == 0x10_0000_0000_0000_0000,
                nbound == 0x200_0000 * 0x200_0000,
                0 <= d1 <= dbound,
                0 <= d2 <= dbound,
                0 <= (q2.3 as int) * (q2.3 as int) <= nbound,
                0 <= (q1.3 as int) * (q1.3 as int) <= nbound,
        ;
    }
    let n2sq: u128 = q2.3 as u128 * q2.3 as u128;
    let n1sq: u128 = q1.3 as u128 * q1.3 as u128;
    proof {
        assert(n2sq == (q2.3 as int) * (q2.3 as int));
        assert(n1sq == (q1.3 as int) * (q1.3 as int));
    }
    d1 * n2sq < d2 * n1sq
}

fn nearest_centroid_exec(qs: &Vec<(u64, u64, u64, u64)>, c: &Color) -> (r: usize)
    requires
        qs@.len() >= 1,
        quads_ok(quads_view(qs@), 0x200_0000),
    ensures
        r == nearest_centroid(quads_view(qs@), *c),
        r < qs@.len(),
{
    let ghost qsv = quads_view(qs@);
    let n = qs.len();
    let mut best: usize = 0;
    proof {
        assert(qsv.take(1).len() == 1);
        assert(qsv.take(1)[0] == qsv[0]);
    }
    let mut i: usize = 1;
    while i < n
        invariant
            n == qs@.len(),
            qsv == quads_view(qs@),
            quads_ok(qsv, 0x200_0000),
            1 <= i <= n,
            best < i,
            best == nearest_centroid(qsv.take(i as int), *c),
        decreases n - i,
    {
        proof {
            let t = qsv.take(i + 1);
            assert(t.drop_last() =~= qsv.take(i as int));
            assert(t.last() == qsv[i as int]);
            assert(t[best as int] == qsv[best as int]);
            lemma_nearest_centroid_in_range(qsv.take(i as int), *c);
        }
        let cur = qs[i];
        let b = qs[best];
        proof {
            assert(quad_view(cur) == qsv[i as int]);
            assert(quad_view(b) == qsv[best as int]);
        }
        if closer_exec(&cur, &b, c) {
            best = i;
        }
        i = i + 1;
    }
    proof {
        assert(qsv.take(n as int) =~= qsv);
    }
    best
}

} // verus!

verus! {

/// K-means over a fixed sample buffer.
pub struct KMeans {
    samples: Vec<Color>,
}

impl KMeans {
    /// The samples clustering runs over.
    pub closed spec fn samples_view(&self) -> Seq<Color> {
        self.samples@
    }

    pub fn new(samples: Vec<Color>) -> (r: KMeans)
        ensures
            r.samples_view() == samples@,
    {
        KMeans { samples }
    }

    /// Cluster the samples into at most `k` colors: deterministic
    /// farthest-point seeding, then `max_iter` refinement rounds, then each
    /// centroid mean rounded to a color. The sample count is capped so that
    /// distances compare exactly in 128-bit arithmetic.
    pub fn get_k_colors(&self, k: usize, max_iter: usize) -> (r: Vec<Color>)
        requires
            k >= 1,
            self.samples_view().len() <= 0x200_0000,
        ensures
            r@ == kmeans_palette(self.samples_view(), k as int, max_iter as nat),
            self.samples_view().len() >= 1 ==> 1 <= r@.len() <= k,
    {
        let ghost samples = self.samples@;
        let n = self.samples.len();
        let mut cents: Vec<Color> = Vec::new();
        if k >= n {
            let mut i: usize = 0;
            while i < n
                invariant
                    n == samples.len(),
                    samples == self.samples@,
                    i <= n,
                    cents@ =~= samples.take(i as int),
                decreases n - i,
            {
                cents.push(self.samples[i]);
                proof {
                    assert(cents@ =~= samples.take(i + 1));
                }
                i = i + 1;
            }
            proof {
                assert(cents@ =~= samples);
            }
        } else {
            cents.push(self.samples[0]);
            proof {
                assert(cents@ =~= seq![samples[0]]);
            }
            while cents.len() < k
                invariant
                    n == samples.len(),
                    samples == self.samples@,
                    k < n,
                    k >= 1,
                    1 <= cents@.len() <= k,
                    seeds_rec(samples, cents@, k as int) == seeds_rec(
                        samples,
                        seq![samples[0]],
                        k as int,
                    ),
                decreases k - cents@.len(),
            {
                let mut best_i: usize = 0;
                let mut best_d: u32 = min_seed_dist_exec(&cents, &self.samples[0]);
                proof {
                    assert(samples.take(1).len() == 1);
                    assert(samples.take(1)[0] == samples[0]);
                }
                let mut i: usize = 1;
                while i < n
                    invariant
                        n == samples.len(),
                        samples == self.samples@,
                        cents@.len() >= 1,
                        1 <= i <= n,
                        best_i < i,
                        best_i == farthest_sample(samples.take(i as int), cents@),
                        best_d == min_seed_dist2(cents@, samples[best_i as int]),
                    decreases n - i,
                {
                    let d = min_seed_dist_exec(&cents, &self.samples[i]);
                    proof {
                        let t = samples.take(i + 1);
                        assert(t.drop_last() =~= samples.take(i as int));
                        assert(t.last() == samples[i as int]);
                        lemma_farthest_in_range(samples.take(i as int), cents@);
                        assert(t[farthest_sample(samples.take(i as int), cents@)]
                            == samples[best_i as int]);
                    }
                    if d >= best_d {
                        best_i = i;
                        best_d = d;
                    }
                    i = i + 1;
                }
                proof {
                    assert(samples.take(n as int) =~= samples);
                }
                let picked = self.samples[best_i];
                cents.push(picked);
            }
        }
        proof {
            assert(cents@ == seed_centroids(samples, k as int));
        }
        let m0 = cents.len();
        let mut qs: Vec<(u64, u64, u64, u64)> = Vec::new();
        let mut i: usize = 0;
        while i < m0
            invariant
                m0 == cents@.len(),
                i <= m0,
                qs@.len() == i,
                forall|j: int|
                    0 <= j < i ==> quad_view(#[trigger] qs@[j]) == quad_of_color(cents@[j]),
            decreases m0 - i,
        {
            let c = cents[i];
            qs.push((c.r as u64, c.g as u64, c.b as u64, 1u64));
            i = i + 1;
        }
        proof {
            assert(quads_view(qs@) =~= quads_of_colors(cents@));
        }
        let ghost quads0 = quads_view(qs@);
        proof {
            assert forall|j: int| 0 <= j < quads0.len() implies quad_ok(
                #[trigger] quads0[j],
                n as int,
            ) by {
                assert(quad_view(qs@[j]) == quad_of_color(cents@[j]));
            }
            if n >= 1 {
                assert(quads0.len() >= 1) by {
                    if k >= n {
                    } else {
                        lemma_seeds_rec_len(samples, seq![samples[0]], k as int);
                    }
                }
            }
        }
        let mut it: usize = 0;
        while it < max_iter
            invariant
                n == samples.len(),
                samples == self.samples@,
                n <= 0x200_0000,
                it <= max_iter,
                iterate_centroids(quads_view(qs@), samples, (max_iter - it) as nat)
                    == iterate_centroids(quads0, samples, max_iter as nat),
                quads_ok(quads_view(qs@), n as int),
                n >= 1 ==> qs@.len() >= 1,
                n >= 1 ==> qs@.len() <= quads0.len(),
            decreases max_iter - it,
        {
            let ghost qsv = quads_view(qs@);
            let m = qs.len();
            let mut acc: Vec<(u64, u64, u64, u64)> = Vec::new();
            let mut j: usize = 0;
            while j < m
                invariant
                    j <= m,
                    acc@.len() == j,
                    forall|l: int| 0 <= l < j ==> #[trigger] acc@[l] == (0u64, 0u64, 0u64, 0u64),
                decreases m - j,
            {
                acc.push((0u64, 0u64, 0u64, 0u64));
                j = j + 1;
            }
            proof {
                assert forall|l: int| 0 <= l < m implies quad_view(#[trigger] acc@[l])
                    == cluster_sums(qsv, samples.take(0), l) by {
                    assert(samples.take(0).len() == 0);
                }
            }
            let mut i2: usize = 0;
            while i2 < n
                invariant
                    n == samples.len(),
                    samples == self.samples@,
                    n <= 0x200_0000,
                    i2 <= n,
                    m == qs@.len(),
                    qsv == quads_view(qs@),
                    quads_ok(qsv, n as int),
                    n >= 1 ==> m >= 1,
                    acc@.len() == m,
                    forall|l: int|
                        0 <= l < m ==> quad_view(#[trigger] acc@[l]) == cluster_sums(
                            qsv,
                            samples.take(i2 as int),
                            l,
                        ),
                decreases n - i2,
            {
                let c = self.samples[i2];
                proof {
                    assert forall|l: int| 0 <= l < m implies quad_ok(#[trigger] qsv[l], 0x200_0000) by {
                        assert(quad_ok(qsv[l], n as int));
                    }
                }
                let target = nearest_centroid_exec(&qs, &c);
                let a = acc[target];
                proof {
                    lemma_cluster_sums_bounds(qsv, samples.take(i2 as int), target as int);
                    assert(quad_view(a) == cluster_sums(qsv, samples.take(i2 as int), target as int));
                    assert(a.3 <= samples.take(i2 as int).len());
                    assert(a.0 <= 255 * (a.3 as int) && 255 * (a.3 as int) <= 255 * 0x200_0000);
                    assert(a.1 <= 255 * (a.3 as int));
                    assert(a.2 <= 255 * (a.3 as int));
                }
                let ghost prev_acc = acc@;
                acc.set(target, (a.0 + c.r as u64, a.1 + c.g as u64, a.2 + c.b as u64, a.3 + 1));
                i2 = i2 + 1;
                proof {
                    let t = samples.take(i2 as int);
                    assert(t.drop_last() =~= samples.take(i2 - 1));
                    assert(t.last() == samples[i2 - 1]);
                    assert(t.last() == c);
                    assert forall|l: int| 0 <= l < m implies quad_view(#[trigger] acc@[l])
                        == cluster_sums(qsv, t, l) by {
                        if l == target {
                            assert(quad_view(acc@[l]).0 == a.0 + c.r);
                            assert(quad_view(acc@[l]).1 == a.1 + c.g);
                            assert(quad_view(acc@[l]).2 == a.2 + c.b);
                            assert(quad_view(acc@[l]).3 == a.3 + 1);
                        } else {
                            assert(acc@[l] == prev_acc[l]);
                        }
                    }
                }
            }
            proof {
                assert(samples.take(n as int) =~= samples);
            }
            let mut new_qs: Vec<(u64, u64, u64, u64)> = Vec::new();
            let mut j2: usize = 0;
            while j2 < m
                invariant
                    m == qs@.len(),
                    qsv == quads_view(qs@),
                    acc@.len() == m,
                    n == samples.len(),
                    samples == self.samples@,
                    j2 <= m,
                    forall|l: int|
                        0 <= l < m ==> quad_view(#[trigger] acc@[l]) == cluster_sums(
                            qsv,
                            samples,
                            l,
                        ),
                    quads_view(new_qs@) + step_centroids_from(qsv, samples, j2 as int)
                        =~= step_centroids_from(qsv, samples, 0),
                    forall|l: int|
                        0 <= l < new_qs@.len() ==> quad_view(#[trigger] new_qs@[l]).3 >= 1,
                decreases m - j2,
            {
                let a = acc[j2];
                let ghost prev_new = new_qs@;
                if a.3 > 0 {
                    new_qs.push(a);
                }
                j2 = j2 + 1;
                proof {
                    let s = cluster_sums(qsv, samples, j2 - 1);
                    assert(s == quad_view(a));
                    if s.3 > 0 {
                        assert(quads_view(new_qs@) =~= quads_view(prev_new).push(s));
                        assert(quads_view(prev_new).push(s) + step_centroids_from(
                            qsv,
                            samples,
                            j2 as int,
                        ) =~= quads_view(prev_new) + (seq![s] + step_centroids_from(
                            qsv,
                            samples,
                            j2 as int,
                        )));
                    }
                }
            }
            proof {
                assert(step_centroids_from(qsv, samples, m as int) =~= Seq::empty());
                assert(quads_view(new_qs@) =~= step_centroids(qsv, samples));
                lemma_step_bounds(qsv, samples, 0);
                if n >= 1 {
                    lemma_nearest_centroid_in_range(qsv, samples[0]);
                    lemma_cluster_sums_member(qsv, samples, 0);
                    lemma_step_from_nonempty(qsv, samples, 0, nearest_centroid(qsv, samples[0]));
                }
            }
            qs = new_qs;
            it = it + 1;
        }
        proof {
            assert(iterate_centroids(quads_view(qs@), samples, 0) == quads_view(qs@));
            assert forall|l: int| 0 <= l < quads_view(qs@).len() implies quad_ok(
                #[trigger] quads_view(qs@)[l],
                0x200_0000,
            ) by {
                assert(quad_ok(quads_view(qs@)[l], n as int));
            }
        }
        let mf = qs.len();
        let mut out: Vec<Color> = Vec::new();
        let mut i3: usize = 0;
        while i3 < mf
            invariant
                mf == qs@.len(),
                i3 <= mf,
                out@.len() == i3,
                quads_ok(quads_view(qs@), 0x200_0000),
                forall|l: int|
                    0 <= l < i3 ==> #[trigger] out@[l] == round_quad(quad_view(qs@[l])),
            decreases mf - i3,
        {
            let q = qs[i3];
            proof {
                assert(quad_view(q) == quads_view(qs@)[i3 as int]);
                assert(quad_ok(quad_view(q), 0x200_0000));
                assert((2 * (q.0 as int) + q.3) / (2 * (q.3 as int)) <= 255 && (2 * (q.1 as int)
                    + q.3) / (2 * (q.3 as int)) <= 255 && (2 * (q.2 as int) + q.3) / (2 * (
                q.3 as int)) <= 255 && (2 * (q.0 as int) + q.3) / (2 * (q.3 as int)) >= 0 && (2 * (
                q.1 as int) + q.3) / (2 * (q.3 as int)) >= 0 && (2 * (q.2 as int) + q.3) / (2 * (
                q.3 as int)) >= 0) by (nonlinear_arith)
                    requires
                        1 <= q.3,
                        0 <= q.0 <= 255 * (q.3 as int),
                        0 <= q.1 <= 255 * (q.3 as int),
                        0 <= q.2 <= 255 * (q.3 as int),
                ;
            }
            let cr = ((2 * q.0 + q.3) / (2 * q.3)) as u8;
            let cg = ((2 * q.1 + q.3) / (2 * q.3)) as u8;
            let cb = ((2 * q.2 + q.3) / (2 * q.3)) as u8;
            out.push(Color { r: cr, g: cg, b: cb });
            i3 = i3 + 1;
        }
        proof {
            assert(out@ =~= quads_view(qs@).map_values(|q: (int, int, int, int)| round_quad(q)));
            assert(out@ =~= kmeans_palette(samples, k as int, max_iter as nat));
            if samples.len() >= 1 {
                assert(quads0.len() <= k) by {
                    if k >= n {
                    } else {
                        lemma_seeds_rec_len(samples, seq![samples[0]], k as int);
                    }
                }
            }
        }
        out
    }
}

} // verus!
