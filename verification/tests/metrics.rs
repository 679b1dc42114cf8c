use colorsquash::Color;
use colorsquash::color_index;
use colorsquash::difference::DifferenceFn;
use colorsquash::difference::isqrt;
use colorsquash::difference::redmean;
use colorsquash::difference::rgb;

fn sample_colors() -> Vec<Color> {
    vec![
        Color::new(0, 0, 0),
        Color::new(255, 255, 255),
        Color::new(255, 0, 0),
        Color::new(0, 255, 0),
        Color::new(0, 0, 255),
        Color::new(10, 10, 10),
        Color::new(200, 200, 200),
        Color::new(1, 128, 254),
        Color::new(13, 37, 42),
    ]
}

#[test]
fn rgb_black_white_is_765() {
    assert_eq!(rgb(&Color::new(0, 0, 0), &Color::new(255, 255, 255)), 765);
}

#[test]
fn rgb_simple_sum() {
    assert_eq!(rgb(&Color::new(10, 10, 10), &Color::new(200, 200, 200)), 570);
    assert_eq!(rgb(&Color::new(5, 200, 30), &Color::new(7, 190, 31)), 13);
}

#[test]
fn redmean_black_white_value() {
    // radicand 4606 * 65025 = 299505150; its integer root is 17306
    assert_eq!(redmean(&Color::new(0, 0, 0), &Color::new(255, 255, 255)), 17306);
}

#[test]
fn redmean_red_vs_black_value() {
    // radicand (1024 + 255) * 255^2 = 83166975; its integer root is 9119
    assert_eq!(redmean(&Color::new(255, 0, 0), &Color::new(0, 0, 0)), 9119);
}

#[test]
fn redmean_gray_pair_value() {
    assert_eq!(redmean(&Color::new(10, 10, 10), &Color::new(200, 200, 200)), 12894);
}

#[test]
fn metric_laws_identity_and_symmetry() {
    let colors = sample_colors();
    for m in [DifferenceFn::Rgb, DifferenceFn::Redmean] {
        for a in &colors {
            assert_eq!(m.apply(a, a), 0);
            for b in &colors {
                assert_eq!(m.apply(a, b), m.apply(b, a));
            }
        }
    }
}

#[test]
fn isqrt_exact_values() {
    assert_eq!(isqrt(0), 0);
    assert_eq!(isqrt(1), 1);
    assert_eq!(isqrt(15), 3);
    assert_eq!(isqrt(16), 4);
    assert_eq!(isqrt(83166975), 9119);
    assert_eq!(isqrt(u64::MAX), 4294967295);
}

#[test]
fn color_index_formula() {
    assert_eq!(color_index(&Color::new(1, 2, 3)), 66051);
    assert_eq!(color_index(&Color::new(0, 0, 0)), 0);
    assert_eq!(color_index(&Color::new(255, 255, 255)), 16777215);
}
