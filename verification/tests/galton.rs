use galton_board::input::get_input;
use galton_board::sim::simulate;
use galton_board::stats::{statistics, Stats};
use galton_board::viz::{bar_string, bar_width, max_count, visualize};

/// Mean, standard deviation and variance as floating-point numbers, from
/// the exact integer moments; all zero when the histogram holds no balls.
fn float_stats(st: &Stats) -> (f64, f64, f64) {
    if st.total == 0 {
        return (0.0, 0.0, 0.0);
    }
    let t = st.total as f64;
    let mean = st.weighted as f64 / t;
    let variance = st.weighted_sq as f64 / t - mean * mean;
    let std_dev = variance.sqrt();
    (mean, std_dev, variance)
}

#[test]
fn test_simulate() {
    let distribution = simulate(5, 100);
    assert_eq!(distribution.len(), 6);
    assert_eq!(distribution.iter().sum::<usize>(), 100);
}

#[test]
fn test_statistics() {
    let distribution = vec![1, 4, 6, 4, 1];
    let (mean, std_dev, variance) = float_stats(&statistics(&distribution).unwrap());
    assert!((mean - 2.0).abs() < 1e-10);
    assert!((std_dev - 1.0).abs() < 1e-10);
    assert!((variance - 1.0).abs() < 1e-10);
}

#[test]
fn test_get_input_valid() {
    let result = get_input("5\n", 10);
    assert_eq!(result, 5);
}

#[test]
fn test_get_input_invalid() {
    let result = get_input("abc\n", 10);
    assert_eq!(result, 10);
}

#[test]
fn test_statistics_exact_moments() {
    let st = statistics(&vec![1, 4, 6, 4, 1]).unwrap();
    assert_eq!(st.total, 16);
    assert_eq!(st.weighted, 32);
    assert_eq!(st.weighted_sq, 80);
}

#[test]
fn test_statistics_zero_total() {
    let st = statistics(&vec![0, 0, 0]).unwrap();
    assert_eq!(
        st,
        Stats {
            total: 0,
            weighted: 0,
            weighted_sq: 0
        }
    );
    let (mean, std_dev, variance) = float_stats(&st);
    assert_eq!(mean, 0.0);
    assert_eq!(std_dev, 0.0);
    assert_eq!(variance, 0.0);
}

#[test]
fn test_statistics_empty_histogram() {
    let st = statistics(&Vec::new()).unwrap();
    assert_eq!(st.total, 0);
    assert_eq!(st.weighted, 0);
    assert_eq!(st.weighted_sq, 0);
}

#[test]
fn test_simulate_zero_rows() {
    let distribution = simulate(0, 7);
    assert_eq!(distribution, vec![7]);
}

#[test]
fn test_simulate_zero_balls() {
    let distribution = simulate(3, 0);
    assert_eq!(distribution, vec![0, 0, 0, 0]);
}

#[test]
fn test_get_input_empty() {
    assert_eq!(get_input("", 9), 9);
    assert_eq!(get_input("   \n", 9), 9);
}

#[test]
fn test_get_input_plus_sign() {
    assert_eq!(get_input("+5", 10), 5);
    assert_eq!(get_input("+", 10), 10);
    assert_eq!(get_input("++5", 10), 10);
}

#[test]
fn test_get_input_negative() {
    assert_eq!(get_input("-5", 10), 10);
}

#[test]
fn test_get_input_surrounding_whitespace() {
    assert_eq!(get_input("  42  ", 10), 42);
    assert_eq!(get_input("\t256\r\n", 10), 256);
}

#[test]
fn test_get_input_inner_junk() {
    assert_eq!(get_input("4 2", 10), 10);
    assert_eq!(get_input("5.0", 10), 10);
}

#[test]
fn test_get_input_overflow() {
    assert_eq!(get_input("18446744073709551615", 10), usize::MAX);
    assert_eq!(get_input("18446744073709551616", 10), 10);
    assert_eq!(get_input("99999999999999999999999999", 10), 10);
}

#[test]
fn test_max_count() {
    assert_eq!(max_count(&Vec::new()), 0);
    assert_eq!(max_count(&vec![3, 7, 2]), 7);
    assert_eq!(max_count(&vec![0, 0]), 0);
}

#[test]
fn test_bar_width_scaling() {
    // full-scale bar, zero bar, and rounding to the nearest glyph
    assert_eq!(bar_width(4, 4), 40);
    assert_eq!(bar_width(0, 5), 0);
    assert_eq!(bar_width(0, 0), 0);
    assert_eq!(bar_width(1, 4), 10);
    assert_eq!(bar_width(1, 3), 13); // 13.33 rounds down
    assert_eq!(bar_width(2, 3), 27); // 26.67 rounds up
    assert_eq!(bar_width(1, 80), 1); // 0.5 rounds up
}

#[test]
fn test_bar_string() {
    assert_eq!(bar_string(3, false), "###");
    assert_eq!(bar_string(2, true), "~~");
    assert_eq!(bar_string(0, false), "");
}

#[test]
fn test_visualize_widths_and_outliers() {
    // one heavy bin at 0: the far bins lie beyond 1.5 standard deviations
    let bars = visualize(&vec![100, 0, 0, 0, 1]);
    assert_eq!(bars.len(), 5);
    assert_eq!(bars[0].width, 40);
    assert_eq!(bars[1].width, 0);
    assert_eq!(bars[4].width, 0);
    assert!(!bars[0].outlier);
    assert!(bars[1].outlier);
    assert!(bars[2].outlier);
    assert!(bars[3].outlier);
    assert!(bars[4].outlier);
}

#[test]
fn test_visualize_uniform_no_outliers() {
    let bars = visualize(&vec![5, 5, 5]);
    assert_eq!(bars.len(), 3);
    for bar in &bars {
        assert_eq!(bar.width, 40);
        assert!(!bar.outlier);
    }
}

#[test]
fn test_visualize_all_zero() {
    // no balls: every bar is empty, and every bin but bin 0 counts as an
    // outlier of the all-zero distribution
    let bars = visualize(&vec![0, 0, 0]);
    assert_eq!(bars.len(), 3);
    assert!(bars.iter().all(|b| b.width == 0));
    assert!(!bars[0].outlier);
    assert!(bars[1].outlier);
    assert!(bars[2].outlier);
}

#[test]
fn test_visualize_empty() {
    let bars = visualize(&Vec::new());
    assert!(bars.is_empty());
}

#[test]
fn test_distribution_shape() {
    // Binomial(20, 0.5) has mean 10 and variance 5; a large sample must
    // land close to both.
    let distribution = simulate(20, 100000);
    let (mean, _, variance) = float_stats(&statistics(&distribution).unwrap());
    assert!((mean - 10.0).abs() < 0.2);
    assert!((variance - 5.0).abs() < 0.5);
}
