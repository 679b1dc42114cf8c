//! Palette selection strategies.
//!
//! [`SortSelect`] is greedy tolerance selection: walk the frequency-sorted
//! histogram and accept a candidate exactly when it differs from every
//! already-accepted color by more than the tolerance, until `max_colors`
//! entries are chosen or the candidates run out.

use vstd::prelude::*;

use crate::ImageData;
use crate::SquashError;
use crate::color::Color;
use crate::difference::DifferenceFn;
use crate::difference::exceeds_spec;
use crate::difference::exceeds_tolerance;
use crate::difference::lemma_metric_laws;
use crate::difference::metric_spec;
use crate::histogram::histogram_of;
use crate::histogram::sum_counts;
use crate::histogram::unique_and_sort;

verus! {

/// The colors of a histogram's entries, in entry order.
pub open spec fn colors_of(entries: Seq<(Color, usize)>) -> Seq<Color> {
    entries.map_values(|e: (Color, usize)| e.0)
}

/// Whether a candidate differs from every selected color by more than the
/// tolerance.
pub open spec fn all_far(m: DifferenceFn, tol: int, sel: Seq<Color>, c: Color) -> bool {
    forall|j: int|
        0 <= j < sel.len() ==> exceeds_spec(m, tol, metric_spec(m, #[trigger] sel[j], c))
}

/// The greedy walk: starting from the colors already in `acc`, accept each
/// candidate in order iff it is far from everything accepted so far, and
/// stop at `max` entries.
pub open spec fn select_from(
    m: DifferenceFn,
    tol: int,
    max: int,
    cands: Seq<Color>,
    acc: Seq<Color>,
) -> Seq<Color>
    decreases cands.len(),
{
    if cands.len() == 0 || acc.len() >= max {
        acc
    } else {
        let acc2 = if all_far(m, tol, acc, cands.first()) {
            acc.push(cands.first())
        } else {
            acc
        };
        select_from(m, tol, max, cands.drop_first(), acc2)
    }
}

/// The palette that greedy selection gives a pixel buffer: the greedy walk
/// over its frequency-sorted histogram.
pub open spec fn greedy_palette(m: DifferenceFn, tol: int, max: int, pixels: Seq<Color>) -> Seq<
    Color,
> {
    select_from(m, tol, max, colors_of(histogram_of(pixels)), Seq::empty())
}

/// The greedy walk accepts between one and `max` colors: it never exceeds
/// `max`, never drops what it starts from, and accepts at least one color
/// when any candidate exists.
pub proof fn lemma_select_from_len(
    m: DifferenceFn,
    tol: int,
    max: int,
    cands: Seq<Color>,
    acc: Seq<Color>,
)
    requires
        acc.len() <= max,
    ensures
        acc.len() <= select_from(m, tol, max, cands, acc).len() <= max,
        max >= 1 && acc.len() + cands.len() >= 1 ==> select_from(m, tol, max, cands, acc).len()
            >= 1,
    decreases cands.len(),
{
    if cands.len() == 0 || acc.len() >= max {
    } else {
        let c = cands.first();
        if all_far(m, tol, acc, c) {
            lemma_select_from_len(m, tol, max, cands.drop_first(), acc.push(c));
        } else {
            assert(acc.len() >= 1) by {
                if acc.len() == 0 {
                    assert(all_far(m, tol, acc, c));
                }
            }
            lemma_select_from_len(m, tol, max, cands.drop_first(), acc);
        }
    }
}

/// Every pair of distinct entries differs by more than the tolerance.
pub open spec fn pairwise_far(m: DifferenceFn, tol: int, s: Seq<Color>) -> bool {
    forall|i: int, j: int|
        0 <= i < s.len() && 0 <= j < s.len() && i != j ==> exceeds_spec(
            m,
            tol,
            #[trigger] metric_spec(m, s[i], s[j]),
        )
}

/// The greedy selection invariant: any two entries of the resulting palette
/// differ by more than the tolerance, in either argument order.
pub proof fn lemma_select_from_pairwise(
    m: DifferenceFn,
    tol: int,
    max: int,
    cands: Seq<Color>,
    acc: Seq<Color>,
)
    requires
        pairwise_far(m, tol, acc),
    ensures
        pairwise_far(m, tol, select_from(m, tol, max, cands, acc)),
    decreases cands.len(),
{
    if cands.len() == 0 || acc.len() >= max {
    } else {
        let c = cands.first();
        if all_far(m, tol, acc, c) {
            let acc2 = acc.push(c);
            assert forall|i: int, j: int|
                0 <= i < acc2.len() && 0 <= j < acc2.len() && i != j implies exceeds_spec(
                m,
                tol,
                #[trigger] metric_spec(m, acc2[i], acc2[j]),
            ) by {
                if i < acc.len() && j < acc.len() {
                    assert(exceeds_spec(m, tol, metric_spec(m, acc[i], acc[j])));
                } else if j == acc.len() {
                    assert(exceeds_spec(m, tol, metric_spec(m, acc[i], c)));
                } else {
                    assert(exceeds_spec(m, tol, metric_spec(m, acc[j], c)));
                    lemma_metric_laws(m, c, acc[j]);
                }
            }
            lemma_select_from_pairwise(m, tol, max, cands.drop_first(), acc2);
        } else {
            lemma_select_from_pairwise(m, tol, max, cands.drop_first(), acc);
        }
    }
}

/// When every pair among the start set and the candidates is far apart and
/// they all fit, the greedy walk accepts everything, in order.
pub proof fn lemma_select_from_takes_all(
    m: DifferenceFn,
    tol: int,
    max: int,
    cands: Seq<Color>,
    acc: Seq<Color>,
)
    requires
        acc.len() + cands.len() <= max,
        pairwise_far(m, tol, acc + cands),
    ensures
        select_from(m, tol, max, cands, acc) == acc + cands,
    decreases cands.len(),
{
    if cands.len() == 0 {
        assert(acc + cands =~= acc);
    } else {
        let c = cands.first();
        let whole = acc + cands;
        assert(whole[acc.len() as int] == c);
        assert(all_far(m, tol, acc, c)) by {
            assert forall|j: int| 0 <= j < acc.len() implies exceeds_spec(
                m,
                tol,
                metric_spec(m, #[trigger] acc[j], c),
            ) by {
                assert(whole[j] == acc[j]);
                assert(exceeds_spec(m, tol, metric_spec(m, whole[j], whole[acc.len() as int])));
            }
        }
        let acc2 = acc.push(c);
        assert(acc2 + cands.drop_first() =~= acc + cands);
        lemma_select_from_takes_all(m, tol, max, cands.drop_first(), acc2);
    }
}

/// The palette index nearest to a color: the least index at which the
/// metric distance to the color is minimal.
pub open spec fn nearest_idx(m: DifferenceFn, pal: Seq<Color>, c: Color) -> int
    decreases pal.len(),
{
    if pal.len() <= 1 {
        0
    } else {
        let k = nearest_idx(m, pal.drop_last(), c);
        if metric_spec(m, pal.last(), c) < metric_spec(m, pal[k], c) {
            pal.len() - 1
        } else {
            k
        }
    }
}

/// The distance from a color to its nearest palette entry.
pub open spec fn min_diff(m: DifferenceFn, pal: Seq<Color>, c: Color) -> int {
    metric_spec(m, pal[nearest_idx(m, pal, c)], c)
}

/// The nearest index is in range, no entry is strictly closer, and every
/// earlier entry is strictly farther (ties go to the least index).
pub proof fn lemma_nearest_props(m: DifferenceFn, pal: Seq<Color>, c: Color)
    requires
        pal.len() >= 1,
    ensures
        0 <= nearest_idx(m, pal, c) < pal.len(),
        forall|j: int|
            0 <= j < pal.len() ==> metric_spec(m, #[trigger] pal[j], c) >= min_diff(m, pal, c),
        forall|j: int|
            0 <= j < nearest_idx(m, pal, c) ==> metric_spec(m, #[trigger] pal[j], c) > min_diff(
                m,
                pal,
                c,
            ),
    decreases pal.len(),
{
    if pal.len() == 1 {
    } else {
        let prev = pal.drop_last();
        lemma_nearest_props(m, prev, c);
        let k = nearest_idx(m, prev, c);
        assert(forall|j: int| 0 <= j < prev.len() ==> #[trigger] prev[j] == pal[j]);
        assert(min_diff(m, prev, c) == metric_spec(m, pal[k], c));
        if metric_spec(m, pal.last(), c) < metric_spec(m, pal[k], c) {
            assert(nearest_idx(m, pal, c) == pal.len() - 1);
            assert(min_diff(m, pal, c) == metric_spec(m, pal[pal.len() - 1], c));
            assert forall|j: int| 0 <= j < pal.len() - 1 implies metric_spec(
                m,
                #[trigger] pal[j],
                c,
            ) > min_diff(m, pal, c) by {
                assert(metric_spec(m, prev[j], c) >= min_diff(m, prev, c));
            }
        } else {
            assert(nearest_idx(m, pal, c) == k);
            assert(min_diff(m, pal, c) == metric_spec(m, pal[k], c));
            assert forall|j: int| 0 <= j < pal.len() implies metric_spec(m, #[trigger] pal[j], c)
                >= min_diff(m, pal, c) by {
                if j < pal.len() - 1 {
                    assert(metric_spec(m, prev[j], c) >= min_diff(m, prev, c));
                }
            }
            assert forall|j: int| 0 <= j < k implies metric_spec(m, #[trigger] pal[j], c)
                > min_diff(m, pal, c) by {
                assert(metric_spec(m, prev[j], c) > min_diff(m, prev, c));
            }
        }
    }
}

/// The index of the palette entry nearest to a color, and its distance:
/// a linear scan keeping the first strict minimum.
pub fn nearest_in_palette(m: &DifferenceFn, palette: &Vec<Color>, c: &Color) -> (r: (usize, u32))
    requires
        palette@.len() >= 1,
    ensures
        r.0 == nearest_idx(*m, palette@, *c),
        r.1 == min_diff(*m, palette@, *c),
        r.0 < palette@.len(),
{
    let n = palette.len();
    let mut best_i: usize = 0;
    let mut best_d: u32 = m.apply(&palette[0], c);
    proof {
        assert(palette@.take(1).len() == 1);
        assert(palette@.take(1)[0] == palette@[0]);
    }
    let mut i: usize = 1;
    while i < n
        invariant
            n == palette@.len(),
            1 <= i <= n,
            best_i < i,
            best_i == nearest_idx(*m, palette@.take(i as int), *c),
            best_d == min_diff(*m, palette@.take(i as int), *c),
        decreases n - i,
    {
        let d = m.apply(&palette[i], c);
        proof {
            let t1 = palette@.take(i + 1);
            assert(t1.drop_last() =~= palette@.take(i as int));
            assert(t1.last() == palette@[i as int]);
            assert(t1[best_i as int] == palette@.take(i as int)[best_i as int]);
            lemma_nearest_props(*m, palette@.take(i as int), *c);
        }
        if d < best_d {
            best_i = i;
            best_d = d;
        }
        i = i + 1;
    }
    proof {
        assert(palette@.take(n as int) =~= palette@);
    }
    (best_i, best_d)
}

/// Whether a candidate differs from every selected color by more than the
/// tolerance.
fn all_far_exec(m: &DifferenceFn, tolerance_milli: u32, selected: &Vec<Color>, c: &Color) -> (r:
    bool)
    ensures
        r == all_far(*m, tolerance_milli as int, selected@, *c),
{
    let mut j: usize = 0;
    while j < selected.len()
        invariant
            j <= selected@.len(),
            forall|k: int|
                0 <= k < j ==> exceeds_spec(
                    *m,
                    tolerance_milli as int,
                    metric_spec(*m, #[trigger] selected@[k], *c),
                ),
        decreases selected@.len() - j,
    {
        let d = m.apply(&selected[j], c);
        if !exceeds_tolerance(m, tolerance_milli, d) {
            return false;
        }
        j = j + 1;
    }
    true
}

/// The greedy walk over a frequency-sorted histogram.
pub fn select_colors_from(
    m: &DifferenceFn,
    tolerance_milli: u32,
    max_colors: usize,
    sorted: &Vec<(Color, usize)>,
) -> (r: Vec<Color>)
    requires
        max_colors >= 1,
    ensures
        r@ == select_from(
            *m,
            tolerance_milli as int,
            max_colors as int,
            colors_of(sorted@),
            Seq::empty(),
        ),
        r@.len() <= max_colors,
        sorted@.len() >= 1 ==> r@.len() >= 1,
{
    let ghost cands = colors_of(sorted@);
    let ghost tol = tolerance_milli as int;
    let ghost max = max_colors as int;
    let mut selected: Vec<Color> = Vec::new();
    let n = sorted.len();
    let mut i: usize = 0;
    proof {
        assert(cands.skip(0) =~= cands);
    }
    while i < n && selected.len() < max_colors
        invariant
            n == sorted@.len(),
            cands == colors_of(sorted@),
            tol == tolerance_milli as int,
            max == max_colors as int,
            max >= 1,
            i <= n,
            selected@.len() <= max_colors,
            select_from(*m, tol, max, cands.skip(i as int), selected@) == select_from(
                *m,
                tol,
                max,
                cands,
                Seq::empty(),
            ),
        decreases n - i,
    {
        let c = sorted[i].0;
        let ghost prev_sel = selected@;
        proof {
            assert(cands.skip(i as int).len() > 0);
            assert(cands.skip(i as int).first() == cands[i as int]);
            assert(cands[i as int] == sorted@[i as int].0);
            assert(cands.skip(i as int).drop_first() =~= cands.skip(i + 1));
        }
        if all_far_exec(m, tolerance_milli, &selected, &c) {
            selected.push(c);
        }
        i = i + 1;
        proof {
            let sk = cands.skip(i - 1);
            assert(sk.len() > 0);
            assert(prev_sel.len() < max);
            assert(sk.first() == c);
            assert(sk.drop_first() =~= cands.skip(i as int));
            assert(selected@ == if all_far(*m, tol, prev_sel, c) {
                prev_sel.push(c)
            } else {
                prev_sel
            });
            assert(select_from(*m, tol, max, sk, prev_sel) == select_from(
                *m,
                tol,
                max,
                sk.drop_first(),
                if all_far(*m, tol, prev_sel, sk.first()) {
                    prev_sel.push(sk.first())
                } else {
                    prev_sel
                },
            ));
            assert(select_from(*m, tol, max, cands.skip(i - 1), prev_sel) == select_from(
                *m,
                tol,
                max,
                cands.skip(i as int),
                selected@,
            ));
        }
    }
    proof {
        if i == n {
            assert(cands.skip(n as int).len() == 0);
        }
        lemma_select_from_len(*m, tol, max, cands, Seq::empty());
    }
    selected
}

/// A palette-selection strategy: from a pixel buffer and a palette-size
/// bound, an ordered palette.
///
/// `select` never touches its receiver's configuration; it fails with
/// [`SquashError::InvalidConfig`] exactly when the bound is zero or the
/// receiver's configuration is out of range, and otherwise returns the
/// strategy's one palette for that input: between 1 and `max_colors`
/// colors. The pixel count is capped so that every strategy can compare
/// distances in exact 128-bit arithmetic.
pub trait Selector: Sized {
    /// Whether this strategy's configuration is in range.
    spec fn config_ok(&self) -> bool;

    /// The palette this strategy gives a pixel buffer.
    spec fn palette_model(&self, max_colors: int, pixels: Seq<Color>) -> Seq<Color>;

    /// Select a palette of at most `max_colors` colors for the image.
    fn select(&mut self, max_colors: usize, image: &ImageData) -> (r: Result<
        Vec<Color>,
        SquashError,
    >)
        requires
            1 <= image.0@.len() <= 0x200_0000,
        ensures
            *final(self) == *old(self),
            r is Err <==> !(old(self).config_ok() && max_colors >= 1),
            r matches Err(e) ==> e == SquashError::InvalidConfig,
            r matches Ok(p) ==> p@ == old(self).palette_model(max_colors as int, image.0@) && 1
                <= p@.len() <= max_colors,
    ;
}

/// Greedy tolerance selection over the frequency-sorted histogram.
pub struct SortSelect {
    /// The tolerance in milli-percent of the metric's range, in `1..=100000`.
    pub tolerance_milli: u32,
    /// The metric candidates are compared with.
    pub difference_fn: DifferenceFn,
}

impl SortSelect {
    /// How different colors have to be to enter the palette, in
    /// milli-percent of the metric's range.
    pub fn tolerance(self, tolerance_milli: u32) -> (s: Self)
        ensures
            s.tolerance_milli == tolerance_milli,
            s.difference_fn == self.difference_fn,
    {
        SortSelect { tolerance_milli, ..self }
    }

    /// The metric to compare colors with while selecting the palette.
    pub fn difference(self, diff_fn: DifferenceFn) -> (s: Self)
        ensures
            s.difference_fn == diff_fn,
            s.tolerance_milli == self.tolerance_milli,
    {
        SortSelect { difference_fn: diff_fn, ..self }
    }
}

impl Default for SortSelect {
    /// Three percent tolerance under the linear-sum metric.
    fn default() -> (s: Self)
        ensures
            s.tolerance_milli == 3000,
            s.difference_fn == DifferenceFn::Rgb,
    {
        SortSelect { tolerance_milli: 3000, difference_fn: DifferenceFn::Rgb }
    }
}

impl Selector for SortSelect {
    open spec fn config_ok(&self) -> bool {
        1 <= self.tolerance_milli <= 100_000
    }

    open spec fn palette_model(&self, max_colors: int, pixels: Seq<Color>) -> Seq<Color> {
        greedy_palette(self.difference_fn, self.tolerance_milli as int, max_colors, pixels)
    }

    fn select(&mut self, max_colors: usize, image: &ImageData) -> (r: Result<
        Vec<Color>,
        SquashError,
    >) {
        if max_colors == 0 || self.tolerance_milli == 0 || self.tolerance_milli > 100_000 {
            return Err(SquashError::InvalidConfig);
        }
        let sorted = unique_and_sort(&image.0);
        let selected = select_colors_from(
            &self.difference_fn,
            self.tolerance_milli,
            max_colors,
            &sorted,
        );
        Ok(selected)
    }
}

} // verus!

verus! {

/// The count-weighted total nearest-color error of a palette: for each
/// histogram entry, its count times its color's distance to the nearest
/// palette entry.
pub open spec fn score_spec(m: DifferenceFn, entries: Seq<(Color, usize)>, pal: Seq<Color>) -> int
    decreases entries.len(),
{
    if entries.len() == 0 {
        0
    } else {
        score_spec(m, entries.drop_last(), pal) + entries.last().1 * min_diff(
            m,
            pal,
            entries.last().0,
        )
    }
}

/// One greedy run at a given tolerance over a histogram.
pub open spec fn run_palette(m: DifferenceFn, tol: int, max: int, entries: Seq<(Color, usize)>) -> Seq<
    Color,
> {
    select_from(m, tol, max, colors_of(entries), Seq::empty())
}

/// The best palette so far, or nothing before the first scored run.
pub open spec fn best_palette(best: Option<(Seq<Color>, int)>) -> Seq<Color> {
    match best {
        Option::None => Seq::empty(),
        Option::Some(b) => b.0,
    }
}

/// Whether a score beats the best score so far; anything beats none.
pub open spec fn improves(s: int, best: Option<(Seq<Color>, int)>) -> bool {
    match best {
        Option::None => true,
        Option::Some(b) => s < b.1,
    }
}

/// The adaptive tolerance search: probe one greedy run above and one below
/// the current tolerance by the current step; recenter at whichever probe
/// improves on the best score, or halve the step when neither does, until
/// the step falls to the epsilon (10 milli-percent) or the attempts run out.
pub open spec fn search_from(
    m: DifferenceFn,
    entries: Seq<(Color, usize)>,
    max: int,
    t: int,
    v: int,
    best: Option<(Seq<Color>, int)>,
    attempts_left: nat,
) -> Seq<Color>
    decreases attempts_left,
{
    if attempts_left == 0 {
        best_palette(best)
    } else {
        let hi = t + v;
        let lo = if t >= v {
            t - v
        } else {
            0
        };
        let p_up = run_palette(m, hi, max, entries);
        let s_up = score_spec(m, entries, p_up);
        let p_dn = run_palette(m, lo, max, entries);
        let s_dn = score_spec(m, entries, p_dn);
        if !improves(s_up, best) && !improves(s_dn, best) {
            if v > 10 {
                search_from(m, entries, max, t, v / 2, best, (attempts_left - 1) as nat)
            } else {
                best_palette(best)
            }
        } else if s_up < s_dn {
            search_from(m, entries, max, hi, v, Option::Some((p_up, s_up)), (attempts_left - 1) as nat)
        } else {
            search_from(m, entries, max, lo, v, Option::Some((p_dn, s_dn)), (attempts_left - 1) as nat)
        }
    }
}

/// The palette the adaptive search gives a pixel buffer.
pub open spec fn heuristic_palette(
    m: DifferenceFn,
    tol: int,
    variance: int,
    attempts: nat,
    max: int,
    pixels: Seq<Color>,
) -> Seq<Color> {
    search_from(m, histogram_of(pixels), max, tol, variance, Option::None, attempts)
}

proof fn lemma_sum_counts_take_step(entries: Seq<(Color, usize)>, k: int)
    requires
        0 <= k < entries.len(),
    ensures
        sum_counts(entries.take(k + 1)) == sum_counts(entries.take(k)) + entries[k].1,
{
    assert(entries.take(k + 1).drop_last() =~= entries.take(k));
    assert(entries.take(k + 1).last() == entries[k]);
}

proof fn lemma_sum_counts_take_le(entries: Seq<(Color, usize)>, k: int)
    requires
        0 <= k <= entries.len(),
    ensures
        sum_counts(entries.take(k)) <= sum_counts(entries),
        sum_counts(entries.take(k)) >= 0,
    decreases entries.len() - k,
{
    if k == entries.len() {
        assert(entries.take(k) =~= entries);
        lemma_sum_counts_nonneg(entries);
    } else {
        lemma_sum_counts_take_step(entries, k);
        lemma_sum_counts_take_le(entries, k + 1);
        if k > 0 {
            lemma_sum_counts_take_le_helper(entries, k);
        } else {
            assert(entries.take(0).len() == 0);
        }
    }
}

proof fn lemma_sum_counts_take_le_helper(entries: Seq<(Color, usize)>, k: int)
    requires
        0 <= k <= entries.len(),
    ensures
        sum_counts(entries.take(k)) >= 0,
    decreases k,
{
    if k == 0 {
        assert(entries.take(0).len() == 0);
    } else {
        lemma_sum_counts_take_step(entries, k - 1);
        lemma_sum_counts_take_le_helper(entries, k - 1);
    }
}

proof fn lemma_sum_counts_nonneg(entries: Seq<(Color, usize)>)
    ensures
        sum_counts(entries) >= 0,
    decreases entries.len(),
{
    if entries.len() > 0 {
        lemma_sum_counts_nonneg(entries.drop_last());
    }
}

/// Score a palette against a histogram, exactly.
fn score_palette(m: &DifferenceFn, entries: &Vec<(Color, usize)>, palette: &Vec<Color>) -> (s:
    u128)
    requires
        palette@.len() >= 1,
        sum_counts(entries@) <= usize::MAX,
    ensures
        s == score_spec(*m, entries@, palette@),
{
    let n = entries.len();
    let mut s: u128 = 0;
    let mut k: usize = 0;
    proof {
        assert(entries@.take(0).len() == 0);
    }
    while k < n
        invariant
            n == entries@.len(),
            k <= n,
            palette@.len() >= 1,
            sum_counts(entries@) <= usize::MAX,
            s == score_spec(*m, entries@.take(k as int), palette@),
            s <= sum_counts(entries@.take(k as int)) * crate::difference::max_metric(),
        decreases n - k,
    {
        let e = entries[k];
        let (_idx, d) = nearest_in_palette(m, palette, &e.0);
        proof {
            crate::difference::lemma_metric_bounds(*m, palette@[nearest_idx(*m, palette@, e.0)], e.0);
            lemma_nearest_props(*m, palette@, e.0);
            assert(0 <= min_diff(*m, palette@, e.0) <= crate::difference::max_metric());
            assert((e.1 as int) * (d as int) <= (e.1 as int) * crate::difference::max_metric()
                && (e.1 as int) * (d as int) >= 0) by (nonlinear_arith)
                requires
                    0 <= e.1,
                    0 <= d <= crate::difference::max_metric(),
            ;
            lemma_sum_counts_take_step(entries@, k as int);
            lemma_sum_counts_take_le(entries@, k + 1);
            assert(entries@.take(k + 1).drop_last() =~= entries@.take(k as int));
            assert(entries@.take(k + 1).last() == entries@[k as int]);
            assert(sum_counts(entries@.take(k + 1)) * crate::difference::max_metric() <= usize::MAX
                * crate::difference::max_metric()) by (nonlinear_arith)
                requires
                    sum_counts(entries@.take(k + 1)) <= usize::MAX,
                    sum_counts(entries@.take(k + 1)) >= 0,
            ;
            assert((sum_counts(entries@.take(k as int)) + e.1) * crate::difference::max_metric()
                == sum_counts(entries@.take(k as int)) * crate::difference::max_metric() + (
            e.1 as int) * crate::difference::max_metric()) by (nonlinear_arith);
        }
        s = s + (e.1 as u128) * (d as u128);
        k = k + 1;
    }
    proof {
        assert(entries@.take(n as int) =~= entries@);
    }
    s
}

/// One greedy run and its score at a given tolerance.
fn compute_once(
    m: &DifferenceFn,
    entries: &Vec<(Color, usize)>,
    max_colors: usize,
    tolerance_milli: u32,
) -> (r: (Vec<Color>, u128))
    requires
        max_colors >= 1,
        entries@.len() >= 1,
        sum_counts(entries@) <= usize::MAX,
    ensures
        r.0@ == run_palette(*m, tolerance_milli as int, max_colors as int, entries@),
        r.1 == score_spec(*m, entries@, r.0@),
        1 <= r.0@.len() <= max_colors,
{
    let palette = select_colors_from(m, tolerance_milli, max_colors, entries);
    let score = score_palette(m, entries, &palette);
    (palette, score)
}

/// The view of the best run so far: its palette and exact score.
pub open spec fn best_view(best: Option<(Vec<Color>, u128)>) -> Option<(Seq<Color>, int)> {
    match best {
        Option::None => Option::None,
        Option::Some(b) => Option::Some((b.0@, b.1 as int)),
    }
}

/// Adaptive tolerance search: tune the greedy tolerance to minimize the
/// count-weighted total nearest-color error, by a deterministic
/// one-dimensional local search.
pub struct HeuristicSorsel {
    /// The starting tolerance in milli-percent, valid in `1..=100000`.
    pub tolerance_milli: u32,
    /// The starting step in milli-percent, valid in `1..=100000`.
    pub variance_milli: u32,
    /// How many probing iterations to attempt at most, valid in `1..=10000`.
    pub max_attempts: usize,
    /// The metric colors are compared with.
    pub difference_fn: DifferenceFn,
}

impl HeuristicSorsel {
    /// The starting tolerance, in milli-percent of the metric's range.
    pub fn tolerance(self, tolerance_milli: u32) -> (s: Self)
        ensures
            s == (HeuristicSorsel { tolerance_milli, ..self }),
    {
        HeuristicSorsel { tolerance_milli, ..self }
    }

    /// The starting step, in milli-percent of the metric's range.
    pub fn variance(self, variance_milli: u32) -> (s: Self)
        ensures
            s == (HeuristicSorsel { variance_milli, ..self }),
    {
        HeuristicSorsel { variance_milli, ..self }
    }

    /// How many probing iterations to attempt at most.
    pub fn max_attempts(self, count: usize) -> (s: Self)
        ensures
            s == (HeuristicSorsel { max_attempts: count, ..self }),
    {
        HeuristicSorsel { max_attempts: count, ..self }
    }

    /// The metric to compare colors with while selecting the palette.
    pub fn difference(self, diff_fn: DifferenceFn) -> (s: Self)
        ensures
            s == (HeuristicSorsel { difference_fn: diff_fn, ..self }),
    {
        HeuristicSorsel { difference_fn: diff_fn, ..self }
    }
}

impl Default for HeuristicSorsel {
    /// Three percent starting tolerance, a quarter percent step, ten
    /// attempts, the linear-sum metric.
    fn default() -> (s: Self)
        ensures
            s.tolerance_milli == 3000,
            s.variance_milli == 250,
            s.max_attempts == 10,
            s.difference_fn == DifferenceFn::Rgb,
    {
        HeuristicSorsel {
            tolerance_milli: 3000,
            variance_milli: 250,
            max_attempts: 10,
            difference_fn: DifferenceFn::Rgb,
        }
    }
}

impl Selector for HeuristicSorsel {
    open spec fn config_ok(&self) -> bool {
        &&& 1 <= self.tolerance_milli <= 100_000
        &&& 1 <= self.variance_milli <= 100_000
        &&& 1 <= self.max_attempts <= 10_000
    }

    open spec fn palette_model(&self, max_colors: int, pixels: Seq<Color>) -> Seq<Color> {
        heuristic_palette(
            self.difference_fn,
            self.tolerance_milli as int,
            self.variance_milli as int,
            self.max_attempts as nat,
            max_colors,
            pixels,
        )
    }

    fn select(&mut self, max_colors: usize, image: &ImageData) -> (r: Result<
        Vec<Color>,
        SquashError,
    >) {
        if max_colors == 0 || self.tolerance_milli == 0 || self.tolerance_milli > 100_000
            || self.variance_milli == 0 || self.variance_milli > 100_000 || self.max_attempts == 0
            || self.max_attempts > 10_000 {
            return Err(SquashError::InvalidConfig);
        }
        let entries = unique_and_sort(&image.0);
        let ghost m = self.difference_fn;
        let ghost max = max_colors as int;
        let mut best: Option<(Vec<Color>, u128)> = None;
        let mut t: u32 = self.tolerance_milli;
        let mut v: u32 = self.variance_milli;
        let mut attempts: usize = 0;
        let max_attempts = self.max_attempts;
        while attempts < max_attempts
            invariant
                m == self.difference_fn,
                max == max_colors as int,
                max_colors >= 1,
                entries@ == histogram_of(image.0@),
                entries@.len() >= 1,
                sum_counts(entries@) <= usize::MAX,
                attempts <= max_attempts <= 10_000,
                v <= 100_000,
                t <= 100_000 + 100_000 * attempts,
                best matches Option::Some(b) ==> 1 <= b.0@.len() <= max_colors,
                attempts >= 1 ==> best is Some,
                max_attempts >= 1,
                search_from(
                    m,
                    entries@,
                    max,
                    t as int,
                    v as int,
                    best_view(best),
                    (max_attempts - attempts) as nat,
                ) == search_from(
                    m,
                    entries@,
                    max,
                    self.tolerance_milli as int,
                    self.variance_milli as int,
                    Option::None,
                    max_attempts as nat,
                ),
            ensures
                best matches Option::Some(b) ==> 1 <= b.0@.len() <= max_colors,
                best is Some,
                best_palette(best_view(best)) == search_from(
                    m,
                    entries@,
                    max,
                    self.tolerance_milli as int,
                    self.variance_milli as int,
                    Option::None,
                    max_attempts as nat,
                ),
            decreases max_attempts - attempts,
        {
            let ghost left = (max_attempts - attempts) as nat;
            attempts = attempts + 1;
            let hi = t + v;
            let lo = if t >= v {
                t - v
            } else {
                0
            };
            let run_up = compute_once(&self.difference_fn, &entries, max_colors, hi);
            let run_down = compute_once(&self.difference_fn, &entries, max_colors, lo);
            let up_improves = match &best {
                Option::None => true,
                Option::Some(b) => run_up.1 < b.1,
            };
            let down_improves = match &best {
                Option::None => true,
                Option::Some(b) => run_down.1 < b.1,
            };
            proof {
                assert(improves(run_up.1 as int, best_view(best)) == up_improves);
                assert(improves(run_down.1 as int, best_view(best)) == down_improves);
            }
            if !up_improves && !down_improves {
                if v > 10 {
                    v = v / 2;
                    proof {
                        assert(best is Some);
                    }
                } else {
                    proof {
                        assert(best is Some);
                        assert(search_from(m, entries@, max, t as int, v as int, best_view(best), left)
                            == best_palette(best_view(best)));
                    }
                    break ;
                }
            } else if run_up.1 < run_down.1 {
                t = hi;
                best = Some((run_up.0, run_up.1));
            } else {
                t = lo;
                best = Some((run_down.0, run_down.1));
            }
        }
        match best {
            Option::Some(b) => Ok(b.0),
            Option::None => Err(SquashError::InvalidConfig),
        }
    }
}

} // verus!

verus! {

/// K-means clustering as a palette selector. Unlike the other strategies it
/// works over the full sample set, not the deduplicated histogram, and it
/// ignores the tolerance.
#[derive(Debug, Default)]
pub struct Kmeans {
    /// How many refinement rounds to run, valid from one up.
    pub max_iter: usize,
}

impl Selector for Kmeans {
    open spec fn config_ok(&self) -> bool {
        self.max_iter >= 1
    }

    open spec fn palette_model(&self, max_colors: int, pixels: Seq<Color>) -> Seq<Color> {
        crate::nih_kmeans::kmeans_palette(pixels, max_colors, self.max_iter as nat)
    }

    fn select(&mut self, max_colors: usize, image: &ImageData) -> (r: Result<
        Vec<Color>,
        SquashError,
    >) {
        if max_colors == 0 || self.max_iter == 0 {
            return Err(SquashError::InvalidConfig);
        }
        let n = image.0.len();
        let mut samples: Vec<Color> = Vec::new();
        let mut i: usize = 0;
        while i < n
            invariant
                n == image.0@.len(),
                i <= n,
                samples@ =~= image.0@.take(i as int),
            decreases n - i,
        {
            samples.push(image.0[i]);
            proof {
                assert(samples@ =~= image.0@.take(i + 1));
            }
            i = i + 1;
        }
        proof {
            assert(samples@ =~= image.0@);
        }
        let kmean = crate::nih_kmeans::KMeans::new(samples);
        let colors = kmean.get_k_colors(max_colors, self.max_iter);
        Ok(colors)
    }
}

} // verus!

verus! {

/// The greedy selection invariant at the palette level: any two entries of
/// a greedy palette differ by more than the tolerance threshold.
pub proof fn lemma_greedy_palette_pairwise(m: DifferenceFn, tol: int, max: int, pixels: Seq<Color>)
    ensures
        pairwise_far(m, tol, greedy_palette(m, tol, max, pixels)),
{
    lemma_select_from_pairwise(m, tol, max, colors_of(histogram_of(pixels)), Seq::empty());
}

/// Determinism: a selection strategy's palette is one function of its
/// configuration, the size bound and the pixels, so any two results that
/// meet `select`'s contract on identical inputs are byte-identical.
pub proof fn lemma_selection_deterministic<S: Selector>(
    s: &S,
    max_colors: int,
    pixels: Seq<Color>,
    first: Seq<Color>,
    second: Seq<Color>,
)
    requires
        first == s.palette_model(max_colors, pixels),
        second == s.palette_model(max_colors, pixels),
    ensures
        first == second,
{
}

/// Dedup correctness: over a histogram of pairwise distinct colors, greedy
/// selection at the minimal tolerance with room for every color returns
/// exactly the frequency-sorted unique colors, and each palette color's
/// nearest palette entry is itself.
pub proof fn lemma_dedup_exact(
    m: DifferenceFn,
    max: int,
    pixels: Seq<Color>,
    entries: Seq<(Color, usize)>,
)
    requires
        crate::histogram::is_histogram(pixels, entries),
        max >= entries.len(),
    ensures
        select_from(m, 1, max, colors_of(entries), Seq::empty()) == colors_of(entries),
        forall|i: int|
            0 <= i < entries.len() ==> nearest_idx(m, colors_of(entries), #[trigger] colors_of(
                entries,
            )[i]) == i,
{
    let cands = colors_of(entries);
    assert forall|i: int, j: int|
        0 <= i < cands.len() && 0 <= j < cands.len() && i != j implies exceeds_spec(
        m,
        1,
        #[trigger] metric_spec(m, cands[i], cands[j]),
    ) by {
        lemma_histogram_colors_distinct(pixels, entries, i, j);
        crate::difference::lemma_metric_positive(m, cands[i], cands[j]);
        crate::difference::lemma_metric_bounds(m, cands[i], cands[j]);
    }
    assert(Seq::<Color>::empty() + cands =~= cands);
    lemma_select_from_takes_all(m, 1, max, cands, Seq::empty());
    assert forall|i: int| 0 <= i < entries.len() implies nearest_idx(
        m,
        cands,
        #[trigger] cands[i],
    ) == i by {
        let k = nearest_idx(m, cands, cands[i]);
        lemma_nearest_props(m, cands, cands[i]);
        crate::difference::lemma_metric_laws(m, cands[i], cands[i]);
        assert(metric_spec(m, cands[i], cands[i]) >= min_diff(m, cands, cands[i]));
        if k != i {
            lemma_histogram_colors_distinct(pixels, entries, k, i);
            crate::difference::lemma_metric_positive(m, cands[k], cands[i]);
        }
    }
}

/// Two entries of one histogram never share a color.
proof fn lemma_histogram_colors_distinct(
    pixels: Seq<Color>,
    entries: Seq<(Color, usize)>,
    i: int,
    j: int,
)
    requires
        crate::histogram::is_histogram(pixels, entries),
        0 <= i < entries.len(),
        0 <= j < entries.len(),
        i != j,
    ensures
        colors_of(entries)[i] != colors_of(entries)[j],
{
    if entries[i].0 == entries[j].0 {
        assert(entries[i].1 == crate::histogram::count_of(pixels, entries[i].0));
        assert(entries[j].1 == crate::histogram::count_of(pixels, entries[j].0));
        if i < j {
            assert(crate::histogram::precedes(entries[i], entries[j]));
        } else {
            assert(crate::histogram::precedes(entries[j], entries[i]));
        }
    }
}

} // verus!
