use grading::models::{Config, Rating};
use grading::rating::{histogram, histogram_peak, rating_counts, sort_ratings_desc};

fn band(label: &str, min: u32) -> Rating {
    Rating { label: label.to_string(), min_score: min }
}

#[test]
fn scores_count_in_first_reached_band() {
    let ratings = vec![band("A", 90), band("B", 70), band("C", 0)];
    let counts = rating_counts(&[95, 80, 50, 10, 90, 70], &ratings);
    assert_eq!(counts, vec![2, 2, 2]);
}

#[test]
fn band_counts_cover_every_score_with_zero_threshold() {
    let ratings = vec![band("A", 80), band("F", 0)];
    let scores = [0, 12, 79, 80, 100, 101];
    let counts = rating_counts(&scores, &ratings);
    assert_eq!(counts.iter().sum::<usize>(), scores.len());
}

#[test]
fn scores_below_every_threshold_are_not_counted() {
    let ratings = vec![band("A", 90), band("B", 60)];
    assert_eq!(rating_counts(&[10, 95, 59], &ratings), vec![1, 0]);
    assert_eq!(rating_counts(&[10], &[]), Vec::<usize>::new());
}

#[test]
fn unsorted_bands_count_by_order_given() {
    let ratings = vec![band("low", 0), band("high", 90)];
    assert_eq!(rating_counts(&[95, 20], &ratings), vec![2, 0]);
}

#[test]
fn histogram_bins_of_five() {
    let h = histogram(&[0, 4, 5, 99, 100, 150], 5);
    assert_eq!(h.len(), 21);
    assert_eq!(h[0], 2);
    assert_eq!(h[1], 1);
    assert_eq!(h[19], 1);
    assert_eq!(h[20], 2);
    assert_eq!(h.iter().sum::<usize>(), 6);
}

#[test]
fn histogram_with_uneven_width() {
    let h = histogram(&[33, 66, 99, 100], 33);
    assert_eq!(h, vec![0, 1, 1, 2]);
}

#[test]
fn histogram_peak_is_largest_bin() {
    assert_eq!(histogram_peak(&[0, 3, 1]), 3);
    assert_eq!(histogram_peak(&[0, 0]), 0);
    assert_eq!(histogram_peak(&[]), 1);
}

#[test]
fn sorting_bands_is_stable_and_descending() {
    let mut r = vec![band("a", 10), band("b", 50), band("c", 10), band("d", 90), band("e", 50)];
    sort_ratings_desc(&mut r);
    let labels: Vec<&str> = r.iter().map(|x| x.label.as_str()).collect();
    assert_eq!(labels, vec!["d", "b", "e", "a", "c"]);
}

#[test]
fn editing_a_threshold_caps_and_resorts() {
    let mut c = Config::new();
    c.ratings = vec![band("A", 80), band("B", 60), band("C", 0)];
    c.set_rating_threshold_input(2, "150");
    assert_eq!(c.ratings, vec![band("C", 100), band("A", 80), band("B", 60)]);
    c.set_rating_threshold_input(0, "abc");
    assert_eq!(c.ratings, vec![band("C", 100), band("A", 80), band("B", 60)]);
    c.set_rating_threshold_input(0, "70");
    assert_eq!(c.ratings, vec![band("A", 80), band("C", 70), band("B", 60)]);
}

#[test]
fn renaming_and_adding_bands() {
    let mut c = Config::new();
    c.add_rating();
    assert_eq!(c.ratings, vec![band("New", 0)]);
    c.set_rating_label(0, "Pass".to_string());
    assert_eq!(c.ratings, vec![band("Pass", 0)]);
}
