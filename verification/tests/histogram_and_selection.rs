use colorsquash::Color;
use colorsquash::ImageData;
use colorsquash::SquashError;
use colorsquash::histogram::unique_and_sort;
use colorsquash::selection::HeuristicSorsel;
use colorsquash::selection::Kmeans;
use colorsquash::selection::Selector;
use colorsquash::selection::SortSelect;

fn c(r: u8, g: u8, b: u8) -> Color {
    Color::new(r, g, b)
}

fn repeated(colors: &[(Color, usize)]) -> Vec<Color> {
    let mut out = Vec::new();
    for (color, n) in colors {
        for _ in 0..*n {
            out.push(*color);
        }
    }
    out
}

#[test]
fn histogram_frequency_order() {
    let pixels = repeated(&[(c(1, 1, 1), 2), (c(2, 2, 2), 5), (c(3, 3, 3), 3)]);
    let hist = unique_and_sort(&pixels);
    assert_eq!(hist, vec![(c(2, 2, 2), 5), (c(3, 3, 3), 3), (c(1, 1, 1), 2)]);
}

#[test]
fn histogram_tie_break_descending_channels() {
    let pixels = vec![c(1, 9, 9), c(2, 0, 0), c(1, 9, 8), c(2, 0, 0)];
    let hist = unique_and_sort(&pixels);
    // (2,0,0) has the higher count; the tied pair sorts by descending b.
    assert_eq!(hist, vec![(c(2, 0, 0), 2), (c(1, 9, 9), 1), (c(1, 9, 8), 1)]);
}

#[test]
fn greedy_two_colors_scenario() {
    // A 2x2 image: three dark pixels, one light one.
    let pixels = repeated(&[(c(10, 10, 10), 3), (c(200, 200, 200), 1)]);
    let image = ImageData::from_colors(pixels);
    let mut selector = SortSelect::default().tolerance(10_000);
    let palette = selector.select(2, &image).unwrap();
    assert_eq!(palette, vec![c(10, 10, 10), c(200, 200, 200)]);
}

#[test]
fn greedy_selection_deterministic() {
    let pixels = repeated(&[
        (c(10, 10, 10), 3),
        (c(200, 200, 200), 2),
        (c(13, 37, 42), 4),
        (c(90, 14, 200), 1),
    ]);
    let image = ImageData::from_colors(pixels);
    let mut s1 = SortSelect::default();
    let mut s2 = SortSelect::default();
    assert_eq!(s1.select(3, &image).unwrap(), s2.select(3, &image).unwrap());
}

#[test]
fn dedup_exact_with_minimal_tolerance() {
    // Exactly three distinct colors, max_colors three, minimal tolerance:
    // the palette is the frequency-sorted unique color set.
    let pixels = repeated(&[(c(7, 7, 7), 1), (c(5, 5, 5), 3), (c(6, 6, 6), 2)]);
    let image = ImageData::from_colors(pixels);
    let mut selector = SortSelect::default().tolerance(1);
    let palette = selector.select(3, &image).unwrap();
    assert_eq!(palette, vec![c(5, 5, 5), c(6, 6, 6), c(7, 7, 7)]);
}

#[test]
fn greedy_invalid_configs() {
    let image = ImageData::from_colors(vec![c(1, 2, 3)]);
    let mut zero_max = SortSelect::default();
    assert_eq!(zero_max.select(0, &image), Err(SquashError::InvalidConfig));
    let mut zero_tol = SortSelect::default().tolerance(0);
    assert_eq!(zero_tol.select(2, &image), Err(SquashError::InvalidConfig));
    let mut huge_tol = SortSelect::default().tolerance(100_001);
    assert_eq!(huge_tol.select(2, &image), Err(SquashError::InvalidConfig));
}

#[test]
fn adaptive_search_two_colors() {
    let pixels = repeated(&[(c(10, 10, 10), 3), (c(200, 200, 200), 1)]);
    let image = ImageData::from_colors(pixels);
    let mut selector = HeuristicSorsel::default();
    let palette = selector.select(2, &image).unwrap();
    assert_eq!(palette, vec![c(10, 10, 10), c(200, 200, 200)]);
}

#[test]
fn adaptive_search_deterministic() {
    let pixels = repeated(&[
        (c(10, 10, 10), 5),
        (c(20, 20, 20), 4),
        (c(30, 30, 30), 3),
        (c(240, 240, 240), 2),
    ]);
    let image = ImageData::from_colors(pixels);
    let mut s1 = HeuristicSorsel::default();
    let mut s2 = HeuristicSorsel::default();
    assert_eq!(s1.select(3, &image).unwrap(), s2.select(3, &image).unwrap());
}

#[test]
fn adaptive_search_invalid_configs() {
    let image = ImageData::from_colors(vec![c(1, 2, 3)]);
    let mut zero_attempts = HeuristicSorsel::default().max_attempts(0);
    assert_eq!(zero_attempts.select(2, &image), Err(SquashError::InvalidConfig));
    let mut zero_variance = HeuristicSorsel::default().variance(0);
    assert_eq!(zero_variance.select(2, &image), Err(SquashError::InvalidConfig));
    let mut zero_tolerance = HeuristicSorsel::default().tolerance(0);
    assert_eq!(zero_tolerance.select(2, &image), Err(SquashError::InvalidConfig));
}

#[test]
fn kmeans_two_clusters_converges_to_means() {
    // Two tight clusters far apart: k-means lands on their exact means.
    let pixels = vec![c(10, 10, 10), c(12, 12, 12), c(200, 200, 200), c(202, 202, 202)];
    let image = ImageData::from_colors(pixels);
    let mut selector = Kmeans { max_iter: 10 };
    let palette = selector.select(2, &image).unwrap();
    assert_eq!(palette.len(), 2);
    assert!(palette.contains(&c(11, 11, 11)));
    assert!(palette.contains(&c(201, 201, 201)));
}

#[test]
fn kmeans_fewer_samples_than_k() {
    // Duplicate samples seed duplicate centroids; one refinement round
    // leaves a single non-empty cluster.
    let pixels = vec![c(1, 2, 3), c(1, 2, 3)];
    let image = ImageData::from_colors(pixels);
    let mut selector = Kmeans { max_iter: 1 };
    let palette = selector.select(200, &image).unwrap();
    assert_eq!(palette, vec![c(1, 2, 3)]);
}

#[test]
fn kmeans_invalid_config() {
    let image = ImageData::from_colors(vec![c(1, 2, 3)]);
    let mut selector = Kmeans::default();
    assert_eq!(selector.select(2, &image), Err(SquashError::InvalidConfig));
    let mut ok = Kmeans { max_iter: 3 };
    assert_eq!(ok.select(0, &image), Err(SquashError::InvalidConfig));
}

#[test]
fn greedy_rejects_close_color_and_exhausts_candidates() {
    // (12,12,12) sits only 6 away from (10,10,10): at five percent of the
    // linear-sum range it cannot enter, so the palette stays below max.
    let pixels = repeated(&[(c(10, 10, 10), 3), (c(12, 12, 12), 2), (c(200, 200, 200), 1)]);
    let image = ImageData::from_colors(pixels);
    let mut selector = SortSelect::default().tolerance(5_000);
    let palette = selector.select(3, &image).unwrap();
    assert_eq!(palette, vec![c(10, 10, 10), c(200, 200, 200)]);
}

#[test]
fn adaptive_search_recenters_on_better_score() {
    // Probing up from eleven percent rejects the near-duplicate (30,30,30)
    // and keeps the far-off white, which scores much better; probing down
    // keeps the near-duplicate and loses white to the size bound.
    let pixels = repeated(&[
        (c(0, 0, 0), 10),
        (c(30, 30, 30), 9),
        (c(255, 255, 255), 8),
    ]);
    let image = ImageData::from_colors(pixels);
    let mut selector = HeuristicSorsel::default().tolerance(11_000).variance(1_000);
    let palette = selector.select(2, &image).unwrap();
    assert_eq!(palette, vec![c(0, 0, 0), c(255, 255, 255)]);
}

#[test]
fn kmeans_is_deterministic() {
    let pixels = repeated(&[(c(10, 10, 10), 4), (c(200, 200, 200), 3), (c(90, 14, 200), 2)]);
    let image = ImageData::from_colors(pixels);
    let mut s1 = Kmeans { max_iter: 5 };
    let mut s2 = Kmeans { max_iter: 5 };
    assert_eq!(s1.select(2, &image).unwrap(), s2.select(2, &image).unwrap());
}
