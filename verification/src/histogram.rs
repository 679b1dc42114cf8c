//! The color histogram: deduplicate a pixel buffer's colors and sort the
//! entries by occurrence count descending, ties broken by descending red,
//! green, then blue channel.
//!
//! That tie-break is a strict total order on entries with distinct colors,
//! so a pixel buffer has exactly one histogram: [`histogram_of`] names it,
//! and [`unique_and_sort`] computes it.

use vstd::prelude::*;

use crate::color::Color;

verus! {

/// How many times a color occurs in a pixel sequence.
pub open spec fn count_of(pixels: Seq<Color>, c: Color) -> int
    decreases pixels.len(),
{
    if pixels.len() == 0 {
        0
    } else {
        count_of(pixels.drop_last(), c) + if pixels.last() == c {
            1int
        } else {
            0int
        }
    }
}

/// The histogram's order: `x` comes strictly before `y` when `x` has the
/// greater count, or equal counts and the channel-wise greater color.
pub open spec fn precedes(x: (Color, usize), y: (Color, usize)) -> bool {
    ||| x.1 > y.1
    ||| (x.1 == y.1 && (x.0.r > y.0.r || (x.0.r == y.0.r && (x.0.g > y.0.g || (x.0.g == y.0.g
        && x.0.b > y.0.b)))))
}

/// Every pair of entries stands in the histogram's strict order.
pub open spec fn sorted_strictly(entries: Seq<(Color, usize)>) -> bool {
    forall|i: int, j: int|
        0 <= i < j < entries.len() ==> #[trigger] precedes(entries[i], entries[j])
}

/// What it means for `entries` to be the histogram of `pixels`: strictly
/// sorted, every entry carries its color's exact occurrence count, and every
/// color that occurs has an entry.
pub open spec fn is_histogram(pixels: Seq<Color>, entries: Seq<(Color, usize)>) -> bool {
    &&& sorted_strictly(entries)
    &&& forall|i: int|
        0 <= i < entries.len() ==> (#[trigger] entries[i]).1 == count_of(pixels, entries[i].0)
    &&& forall|i: int| 0 <= i < entries.len() ==> (#[trigger] entries[i]).1 > 0
    &&& forall|c: Color|
        #[trigger] count_of(pixels, c) > 0 ==> exists|i: int|
            0 <= i < entries.len() && (#[trigger] entries[i]).0 == c
}

/// The sum of all entry counts.
pub open spec fn sum_counts(entries: Seq<(Color, usize)>) -> int
    decreases entries.len(),
{
    if entries.len() == 0 {
        0
    } else {
        sum_counts(entries.drop_last()) + entries.last().1
    }
}

/// The one histogram of a pixel sequence.
pub open spec fn histogram_of(pixels: Seq<Color>) -> Seq<(Color, usize)> {
    choose|entries: Seq<(Color, usize)>| is_histogram(pixels, entries)
}

/// A color occurs in a sequence exactly when its count is positive, and no
/// count exceeds the sequence's length.
pub proof fn lemma_count_of_occurrence(pixels: Seq<Color>, c: Color)
    ensures
        0 <= count_of(pixels, c) <= pixels.len(),
        count_of(pixels, c) > 0 <==> pixels.contains(c),
    decreases pixels.len(),
{
    if pixels.len() == 0 {
    } else {
        lemma_count_of_occurrence(pixels.drop_last(), c);
        assert(pixels.contains(c) ==> pixels.drop_last().contains(c) || pixels.last() == c) by {
            if pixels.contains(c) {
                let i = choose|i: int| 0 <= i < pixels.len() && pixels[i] == c;
                if i < pixels.len() - 1 {
                    assert(pixels.drop_last()[i] == c);
                }
            }
        }
        if pixels.drop_last().contains(c) {
            let i = choose|i: int| 0 <= i < pixels.len() - 1 && pixels.drop_last()[i] == c;
            assert(pixels[i] == c);
        }
        if pixels.last() == c {
            assert(pixels[pixels.len() - 1] == c);
        }
    }
}

/// Extending a sequence by one pixel raises that pixel's color count by one
/// and leaves every other count unchanged.
pub proof fn lemma_count_of_push(pixels: Seq<Color>, p: Color, c: Color)
    ensures
        count_of(pixels.push(p), c) == count_of(pixels, c) + if p == c {
            1int
        } else {
            0int
        },
{
    assert(pixels.push(p).drop_last() =~= pixels);
    assert(pixels.push(p).last() == p);
}

proof fn lemma_sum_counts_push(entries: Seq<(Color, usize)>, e: (Color, usize))
    ensures
        sum_counts(entries.push(e)) == sum_counts(entries) + e.1,
{
    assert(entries.push(e).drop_last() =~= entries);
}

proof fn lemma_sum_counts_update(entries: Seq<(Color, usize)>, j: int, e: (Color, usize))
    requires
        0 <= j < entries.len(),
    ensures
        sum_counts(entries.update(j, e)) == sum_counts(entries) - entries[j].1 + e.1,
    decreases entries.len(),
{
    let up = entries.update(j, e);
    if j == entries.len() - 1 {
        assert(up.drop_last() =~= entries.drop_last());
        assert(up.last() == e);
    } else {
        assert(up.drop_last() =~= entries.drop_last().update(j, e));
        assert(up.last() == entries.last());
        lemma_sum_counts_update(entries.drop_last(), j, e);
    }
}

proof fn lemma_sum_counts_insert(entries: Seq<(Color, usize)>, j: int, e: (Color, usize))
    requires
        0 <= j <= entries.len(),
    ensures
        sum_counts(entries.insert(j, e)) == sum_counts(entries) + e.1,
    decreases entries.len(),
{
    let ins = entries.insert(j, e);
    if j == entries.len() {
        assert(ins =~= entries.push(e));
        lemma_sum_counts_push(entries, e);
    } else {
        assert(ins.drop_last() =~= entries.drop_last().insert(j, e));
        assert(ins.last() == entries.last());
        lemma_sum_counts_insert(entries.drop_last(), j, e);
    }
}

/// Two strictly sorted entry sequences with the same members are equal.
proof fn lemma_sorted_same_members_equal(e1: Seq<(Color, usize)>, e2: Seq<(Color, usize)>)
    requires
        sorted_strictly(e1),
        sorted_strictly(e2),
        forall|x: (Color, usize)| e1.contains(x) <==> e2.contains(x),
    ensures
        e1 =~= e2,
    decreases e1.len(),
{
    if e1.len() == 0 {
        if e2.len() > 0 {
            assert(e2.contains(e2[0]));
        }
    } else if e2.len() == 0 {
        assert(e1.contains(e1[0]));
    } else {
        assert(e1.contains(e1[0]));
        assert(e2.contains(e2[0]));
        let j = choose|j: int| 0 <= j < e2.len() && e2[j] == e1[0];
        let k = choose|k: int| 0 <= k < e1.len() && e1[k] == e2[0];
        if j > 0 && k > 0 {
            assert(precedes(e2[0], e2[j]));
            assert(precedes(e1[0], e1[k]));
            assert(false);
        }
        assert(e1[0] == e2[0]);
        let t1 = e1.drop_first();
        let t2 = e2.drop_first();
        assert forall|x: (Color, usize)| t1.contains(x) <==> t2.contains(x) by {
            lemma_tail_membership(e1, x);
            lemma_tail_membership(e2, x);
        }
        assert(sorted_strictly(t1)) by {
            assert(forall|i: int, j2: int|
                0 <= i < j2 < t1.len() ==> t1[i] == e1[i + 1] && t1[j2] == e1[j2 + 1]);
        }
        assert(sorted_strictly(t2)) by {
            assert(forall|i: int, j2: int|
                0 <= i < j2 < t2.len() ==> t2[i] == e2[i + 1] && t2[j2] == e2[j2 + 1]);
        }
        lemma_sorted_same_members_equal(t1, t2);
        assert forall|i: int| 0 <= i < e1.len() implies e1[i] == e2[i] by {
            if i > 0 {
                assert(t1[i - 1] == t2[i - 1]);
            }
        }
    }
}

/// In a strictly sorted sequence, the tail's members are exactly the
/// sequence's members other than its head.
proof fn lemma_tail_membership(e: Seq<(Color, usize)>, x: (Color, usize))
    requires
        sorted_strictly(e),
        e.len() > 0,
    ensures
        e.drop_first().contains(x) <==> e.contains(x) && x != e[0],
{
    let t = e.drop_first();
    if t.contains(x) {
        let i = choose|i: int| 0 <= i < t.len() && t[i] == x;
        assert(e[i + 1] == x);
        assert(precedes(e[0], e[i + 1]));
    }
    if e.contains(x) && x != e[0] {
        let i = choose|i: int| 0 <= i < e.len() && e[i] == x;
        assert(t[i - 1] == x);
    }
}

/// A pixel sequence has at most one histogram.
pub proof fn lemma_histogram_unique(
    pixels: Seq<Color>,
    e1: Seq<(Color, usize)>,
    e2: Seq<(Color, usize)>,
)
    requires
        is_histogram(pixels, e1),
        is_histogram(pixels, e2),
    ensures
        e1 == e2,
{
    assert forall|x: (Color, usize)| e1.contains(x) implies e2.contains(x) by {
        lemma_histogram_member(pixels, e1, e2, x);
    }
    assert forall|x: (Color, usize)| e2.contains(x) implies e1.contains(x) by {
        lemma_histogram_member(pixels, e2, e1, x);
    }
    lemma_sorted_same_members_equal(e1, e2);
}

proof fn lemma_histogram_member(
    pixels: Seq<Color>,
    e1: Seq<(Color, usize)>,
    e2: Seq<(Color, usize)>,
    x: (Color, usize),
)
    requires
        is_histogram(pixels, e1),
        is_histogram(pixels, e2),
        e1.contains(x),
    ensures
        e2.contains(x),
{
    let i = choose|i: int| 0 <= i < e1.len() && e1[i] == x;
    assert(x.1 == count_of(pixels, x.0));
    assert(count_of(pixels, x.0) > 0);
    let j = choose|j: int| 0 <= j < e2.len() && e2[j].0 == x.0;
    assert(e2[j].1 == count_of(pixels, x.0));
    assert(e2[j] == x);
}

/// Whichever entries the exec code produces, if they satisfy
/// [`is_histogram`] they are [`histogram_of`] itself.
pub proof fn lemma_is_the_histogram(pixels: Seq<Color>, entries: Seq<(Color, usize)>)
    requires
        is_histogram(pixels, entries),
    ensures
        entries == histogram_of(pixels),
        is_histogram(pixels, histogram_of(pixels)),
{
    let h = histogram_of(pixels);
    assert(is_histogram(pixels, h)) by {
        assert(exists|e: Seq<(Color, usize)>| is_histogram(pixels, e));
    }
    lemma_histogram_unique(pixels, entries, h);
}

fn precedes_exec(x: &(Color, usize), y: &(Color, usize)) -> (r: bool)
    ensures
        r == precedes(*x, *y),
{
    x.1 > y.1 || (x.1 == y.1 && (x.0.r > y.0.r || (x.0.r == y.0.r && (x.0.g > y.0.g || (x.0.g
        == y.0.g && x.0.b > y.0.b)))))
}

fn find_color(v: &Vec<(Color, usize)>, c: Color) -> (r: Option<usize>)
    ensures
        match r {
            Some(j) => j < v@.len() && v@[j as int].0 == c,
            None => forall|k: int| 0 <= k < v@.len() ==> (#[trigger] v@[k]).0 != c,
        },
{
    let mut j: usize = 0;
    while j < v.len()
        invariant
            j <= v@.len(),
            forall|k: int| 0 <= k < j ==> (#[trigger] v@[k]).0 != c,
        decreases v@.len() - j,
    {
        if v[j].0 == c {
            return Some(j);
        }
        j = j + 1;
    }
    None
}

/// Tally the occurrence count of each distinct color, in first-occurrence
/// order.
fn count_colors(pixels: &Vec<Color>) -> (v: Vec<(Color, usize)>)
    ensures
        forall|k: int|
            0 <= k < v@.len() ==> (#[trigger] v@[k]).1 == count_of(pixels@, v@[k].0) && v@[k].1
                > 0,
        forall|k1: int, k2: int|
            0 <= k1 < k2 < v@.len() ==> (#[trigger] v@[k1]).0 != (#[trigger] v@[k2]).0,
        forall|c: Color|
            #[trigger] count_of(pixels@, c) > 0 ==> exists|k: int|
                0 <= k < v@.len() && (#[trigger] v@[k]).0 == c,
        sum_counts(v@) == pixels@.len(),
{
    let mut v: Vec<(Color, usize)> = Vec::new();
    let n = pixels.len();
    let mut i: usize = 0;
    while i < n
        invariant
            n == pixels@.len(),
            i <= n,
            forall|k: int|
                0 <= k < v@.len() ==> (#[trigger] v@[k]).1 == count_of(
                    pixels@.take(i as int),
                    v@[k].0,
                ) && v@[k].1 > 0,
            forall|k1: int, k2: int|
                0 <= k1 < k2 < v@.len() ==> (#[trigger] v@[k1]).0 != (#[trigger] v@[k2]).0,
            forall|c: Color|
                #[trigger] count_of(pixels@.take(i as int), c) > 0 ==> exists|k: int|
                    0 <= k < v@.len() && (#[trigger] v@[k]).0 == c,
            sum_counts(v@) == i,
        decreases n - i,
    {
        let c = pixels[i];
        proof {
            assert(pixels@.take(i + 1) =~= pixels@.take(i as int).push(pixels@[i as int]));
            assert forall|cc: Color|
                count_of(pixels@.take(i + 1), cc) == count_of(pixels@.take(i as int), cc) + if cc
                    == c {
                    1int
                } else {
                    0int
                } by {
                lemma_count_of_push(pixels@.take(i as int), c, cc);
            }
            lemma_count_of_occurrence(pixels@.take(i as int), c);
        }
        let ghost prev = v@;
        match find_color(&v, c) {
            Some(j) => {
                let cnt = v[j].1;
                proof {
                    lemma_sum_counts_update(v@, j as int, (c, (cnt + 1) as usize));
                }
                v.set(j, (c, cnt + 1));
                proof {
                    assert forall|cc: Color| #[trigger] count_of(pixels@.take(i + 1), cc)
                        > 0 implies exists|k: int| 0 <= k < v@.len() && (#[trigger] v@[k]).0
                        == cc by {
                        if cc == c {
                            assert(v@[j as int].0 == cc);
                        } else {
                            lemma_count_of_push(pixels@.take(i as int), c, cc);
                            assert(count_of(pixels@.take(i as int), cc) > 0);
                            let k = choose|k: int| 0 <= k < prev.len() && (#[trigger] prev[k]).0
                                == cc;
                            assert(prev[j as int].0 == c);
                            assert(k != j);
                            assert(v@[k].0 == cc);
                        }
                    }
                }
            },
            None => {
                proof {
                    lemma_sum_counts_push(v@, (c, 1));
                    if count_of(pixels@.take(i as int), c) > 0 {
                        let k = choose|k: int| 0 <= k < v@.len() && (#[trigger] v@[k]).0 == c;
                        assert(false);
                    }
                }
                v.push((c, 1));
                proof {
                    assert forall|cc: Color| #[trigger] count_of(pixels@.take(i + 1), cc)
                        > 0 implies exists|k: int| 0 <= k < v@.len() && (#[trigger] v@[k]).0
                        == cc by {
                        if cc == c {
                            assert(v@[prev.len() as int].0 == cc);
                        } else {
                            lemma_count_of_push(pixels@.take(i as int), c, cc);
                            assert(count_of(pixels@.take(i as int), cc) > 0);
                            let k = choose|k: int| 0 <= k < prev.len() && (#[trigger] prev[k]).0
                                == cc;
                            assert(v@[k].0 == cc);
                        }
                    }
                }
            },
        }
        i = i + 1;
    }
    proof {
        assert(pixels@.take(n as int) =~= pixels@);
    }
    v
}

/// Insert each entry into its sorted position.
fn sort_entries(v: Vec<(Color, usize)>) -> (out: Vec<(Color, usize)>)
    requires
        forall|k1: int, k2: int|
            0 <= k1 < k2 < v@.len() ==> (#[trigger] v@[k1]).0 != (#[trigger] v@[k2]).0,
    ensures
        sorted_strictly(out@),
        forall|x: (Color, usize)| out@.contains(x) <==> v@.contains(x),
        sum_counts(out@) == sum_counts(v@),
{
    let mut out: Vec<(Color, usize)> = Vec::new();
    let n = v.len();
    let mut i: usize = 0;
    while i < n
        invariant
            n == v@.len(),
            i <= n,
            forall|k1: int, k2: int|
                0 <= k1 < k2 < v@.len() ==> (#[trigger] v@[k1]).0 != (#[trigger] v@[k2]).0,
            sorted_strictly(out@),
            forall|x: (Color, usize)| out@.contains(x) <==> v@.take(i as int).contains(x),
            forall|k: int|
                0 <= k < out@.len() ==> exists|l: int|
                    0 <= l < i && v@[l] == (#[trigger] out@[k]),
            sum_counts(out@) == sum_counts(v@.take(i as int)),
        decreases n - i,
    {
        let e = v[i];
        let mut j: usize = 0;
        while j < out.len() && precedes_exec(&out[j], &e)
            invariant
                j <= out@.len(),
                forall|k: int| 0 <= k < j ==> precedes(#[trigger] out@[k], e),
            decreases out@.len() - j,
        {
            j = j + 1;
        }
        let ghost prev = out@;
        proof {
            assert forall|k: int| 0 <= k < prev.len() implies (#[trigger] prev[k]).0 != e.0 by {
                let l = choose|l: int| 0 <= l < i && v@[l] == prev[k];
                assert(v@[i as int] == e);
            }
            if j < prev.len() {
                assert(!precedes(prev[j as int], e));
                assert(precedes(e, prev[j as int]));
            }
            prev.insert_ensures(j as int, e);
            lemma_sum_counts_insert(prev, j as int, e);
            lemma_sum_counts_push(v@.take(i as int), e);
            assert(v@.take(i + 1) =~= v@.take(i as int).push(e));
        }
        out.insert(j, e);
        proof {
            let jj = j as int;
            assert forall|k1: int, k2: int| 0 <= k1 < k2 < out@.len() implies #[trigger] precedes(
                out@[k1],
                out@[k2],
            ) by {
                if k2 < jj {
                    assert(out@[k1] == prev[k1] && out@[k2] == prev[k2]);
                } else if k1 < jj && k2 == jj {
                    assert(out@[k1] == prev[k1] && out@[k2] == e);
                } else if k1 < jj && k2 > jj {
                    assert(out@[k1] == prev[k1] && out@[k2] == prev[k2 - 1]);
                    assert(precedes(prev[k1], prev[k2 - 1]));
                } else if k1 == jj {
                    assert(out@[k1] == e && out@[k2] == prev[k2 - 1]);
                    assert(precedes(e, prev[jj]));
                    if k2 - 1 > jj {
                        assert(precedes(prev[jj], prev[k2 - 1]));
                    }
                } else {
                    assert(out@[k1] == prev[k1 - 1] && out@[k2] == prev[k2 - 1]);
                }
            }
            assert forall|x: (Color, usize)| out@.contains(x) implies prev.contains(x) || x
                == e by {
                let k = choose|k: int| 0 <= k < out@.len() && out@[k] == x;
                if k < jj {
                    assert(prev[k] == x);
                } else if k > jj {
                    assert(prev[k - 1] == x);
                }
            }
            assert forall|x: (Color, usize)| prev.contains(x) implies out@.contains(x) by {
                let k = choose|k: int| 0 <= k < prev.len() && prev[k] == x;
                if k < jj {
                    assert(out@[k] == x);
                } else {
                    assert(out@[k + 1] == x);
                }
            }
            assert(out@[jj] == e);
            assert(out@.contains(e));
            assert forall|k: int| 0 <= k < out@.len() implies exists|l: int|
                0 <= l <= i && v@[l] == (#[trigger] out@[k]) by {
                if k < jj {
                    assert(prev.contains(prev[k]));
                } else if k > jj {
                    assert(prev.contains(prev[k - 1]));
                } else {
                    assert(v@[i as int] == out@[k]);
                }
            }
        }
        i = i + 1;
        proof {
            assert(v@.take(i - 1) == v@.take((i - 1) as int));
            assert forall|x: (Color, usize)| out@.contains(x) implies v@.take(
                i as int,
            ).contains(x) by {
                if prev.contains(x) {
                    assert(v@.take((i - 1) as int).contains(x));
                    let k = choose|k: int|
                        0 <= k < i - 1 && #[trigger] v@.take((i - 1) as int)[k] == x;
                    assert(v@.take(i as int)[k] == x);
                } else {
                    assert(x == e);
                    assert(v@.take(i as int)[i - 1] == e);
                }
            }
            assert forall|x: (Color, usize)| v@.take(i as int).contains(x) implies out@.contains(
                x,
            ) by {
                let k = choose|k: int| 0 <= k < i && #[trigger] v@.take(i as int)[k] == x;
                if k < i - 1 {
                    assert(v@.take((i - 1) as int)[k] == x);
                    assert(v@.take((i - 1) as int).contains(x));
                    assert(prev.contains(x));
                } else {
                    assert(x == e);
                }
            }
            assert forall|k: int| 0 <= k < out@.len() implies exists|l: int|
                0 <= l < i && v@[l] == (#[trigger] out@[k]) by {
                let l = choose|l: int| 0 <= l <= i - 1 && v@[l] == out@[k];
            }
        }
    }
    proof {
        assert(v@.take(n as int) =~= v@);
    }
    out
}

/// Deduplicate a pixel buffer's colors and sort them by count descending,
/// ties broken by descending channel value: the buffer's one histogram.
pub fn unique_and_sort(pixels: &Vec<Color>) -> (v: Vec<(Color, usize)>)
    ensures
        is_histogram(pixels@, v@),
        v@ == histogram_of(pixels@),
        sum_counts(v@) == pixels@.len(),
        pixels@.len() > 0 ==> v@.len() > 0,
{
    let counts = count_colors(pixels);
    let out = sort_entries(counts);
    proof {
        assert forall|i: int| 0 <= i < out@.len() implies (#[trigger] out@[i]).1 == count_of(
            pixels@,
            out@[i].0,
        ) && out@[i].1 > 0 by {
            assert(out@.contains(out@[i]));
            let k = choose|k: int| 0 <= k < counts@.len() && counts@[k] == out@[i];
        }
        assert forall|c: Color| #[trigger] count_of(pixels@, c) > 0 implies exists|i: int|
            0 <= i < out@.len() && (#[trigger] out@[i]).0 == c by {
            let k = choose|k: int| 0 <= k < counts@.len() && (#[trigger] counts@[k]).0 == c;
            assert(counts@.contains(counts@[k]));
            assert(out@.contains(counts@[k]));
            let i = choose|i: int| 0 <= i < out@.len() && out@[i] == counts@[k];
        }
        lemma_is_the_histogram(pixels@, out@);
        if pixels@.len() > 0 {
            lemma_count_of_occurrence(pixels@, pixels@.last());
            assert(pixels@.contains(pixels@.last()));
        }
    }
    out
}

} // verus!
