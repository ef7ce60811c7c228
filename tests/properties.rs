use indicators::composite::{Mapped, Paired, Shared, Stepped};
use indicators::drawdown::{classify, episodes, loss_runs, Run};
use indicators::history::History;
use indicators::rolling::Rolling;
use indicators::series::Series;
use indicators::{feed_all, Indicator};

fn sum_window(w: &[i64], _n: usize) -> i64 {
    w.iter().sum()
}

fn loss_magnitude(run: &[f64]) -> Option<f64> {
    let s = run.iter().fold(1.0, |s, x| s * (1.0 + x));
    let dd = 1.0 - s;
    if dd != 0.0 {
        Some(dd)
    } else {
        None
    }
}

fn is_loss(x: &f64) -> bool {
    *x <= 0.0
}

#[test]
fn one_slot_per_feed() {
    let mut rolling = Rolling::new(3, sum_window);
    let mut mapped = Mapped::new(Rolling::new(3, sum_window), |s: &i64| s * 2);
    let mut paired = Paired::new(
        Rolling::new(2, sum_window),
        Rolling::new(4, sum_window),
        |a: &i64, b: &i64| a - b,
    );
    assert_eq!(rolling.iter().len(), 0);
    for k in 0..7i64 {
        rolling.feed(k);
        mapped.feed(k);
        paired.feed((k, k));
        assert_eq!(rolling.iter().len(), (k + 1) as usize);
        assert_eq!(mapped.iter().len(), (k + 1) as usize);
        assert_eq!(paired.iter().len(), (k + 1) as usize);
    }
}

#[test]
fn absent_until_window_is_full() {
    let mut rolling = Rolling::new(3, sum_window);
    for k in 1..=5i64 {
        rolling.feed(k);
    }
    assert_eq!(rolling.iter(), &[None, None, Some(6), Some(9), Some(12)][..]);
    assert_eq!(rolling.freq(), 3);
    assert_eq!(rolling.history().len(), 5);
}

#[test]
fn last_is_absent_before_any_value() {
    let mut rolling = Rolling::new(2, sum_window);
    assert_eq!(rolling.last(), None);
    rolling.feed(4);
    assert_eq!(rolling.last(), None);
    rolling.feed(5);
    assert_eq!(rolling.last(), Some(&9));
}

#[test]
fn window_of_one_is_present_at_once() {
    let mut rolling = Rolling::new(1, sum_window);
    rolling.feed(-3);
    assert_eq!(rolling.iter(), &[Some(-3)][..]);
}

#[test]
fn queries_are_repeatable() {
    let mut rolling = Rolling::new(2, sum_window);
    for k in [3i64, 1, 4, 1, 5] {
        rolling.feed(k);
    }
    let first_last = rolling.last().copied();
    let first_iter = rolling.iter().to_vec();
    assert_eq!(rolling.last().copied(), first_last);
    assert_eq!(rolling.iter().to_vec(), first_iter);
    assert_eq!(first_last, Some(6));
}

#[test]
fn aggregate_sees_history_length() {
    let mut rolling = Rolling::new(2, |_w: &[i64], n: usize| n);
    for k in 0..4i64 {
        rolling.feed(k);
    }
    assert_eq!(rolling.iter(), &[None, Some(2), Some(3), Some(4)][..]);
}

#[test]
fn history_keeps_order_and_window() {
    let mut history = History::new(3);
    assert!(!history.is_full());
    for k in [7i64, 8, 9, 10] {
        history.record(k);
    }
    assert!(history.is_full());
    assert_eq!(history.len(), 4);
    assert_eq!(history.freq(), 3);
    assert_eq!(history.window(), &[8, 9, 10][..]);
}

#[test]
fn series_push_last_iter() {
    let mut series: Series<i64> = Series::new();
    assert_eq!(series.last(), None);
    series.push(Some(1));
    series.push(None);
    assert_eq!(series.last(), None);
    series.push(Some(3));
    assert_eq!(series.last(), Some(&3));
    assert_eq!(series.len(), 3);
    assert_eq!(series.iter(), &[Some(1), None, Some(3)][..]);
}

#[test]
fn mapped_is_absent_where_inner_is() {
    let mut mapped = Mapped::new(Rolling::new(2, sum_window), |s: &i64| s + 100);
    for k in [1i64, 2, 3] {
        mapped.feed(k);
    }
    assert_eq!(mapped.iter(), &[None, Some(103), Some(105)][..]);
    assert_eq!(mapped.inner_ref().iter(), &[None, Some(3), Some(5)][..]);
}

#[test]
fn paired_waits_for_both() {
    let mut paired = Paired::new(
        Rolling::new(1, sum_window),
        Rolling::new(3, sum_window),
        |a: &i64, b: &i64| a * 10 + b,
    );
    for k in [1i64, 2, 3, 4] {
        paired.feed((k, k));
    }
    assert_eq!(paired.iter(), &[None, None, Some(36), Some(49)][..]);
}

#[test]
fn loss_runs_of_reference_window() {
    let xs = [
        0.003, 0.026, 0.015, -0.009, 0.014, 0.024, 0.015, 0.066, -0.014, 0.039,
    ];
    let flags = classify(&xs, is_loss);
    let runs = loss_runs(&flags);
    assert_eq!(
        runs,
        vec![Run { start: 3, end: 4 }, Run { start: 8, end: 9 }]
    );
}

#[test]
fn loss_runs_are_maximal() {
    let flags = [true, true, false, true, false, false, true, true, true];
    assert_eq!(
        loss_runs(&flags),
        vec![
            Run { start: 0, end: 2 },
            Run { start: 3, end: 4 },
            Run { start: 6, end: 9 }
        ]
    );
    assert_eq!(loss_runs(&[]), vec![]);
}

#[test]
fn no_loss_gives_no_episode() {
    let xs = [0.01, 0.0, 0.02, 0.03];
    assert!(episodes(&xs, is_loss, loss_magnitude).is_empty());
}

#[test]
fn all_losses_give_one_episode() {
    let xs = [-0.01, -0.02, -0.03];
    let found = episodes(&xs, is_loss, loss_magnitude);
    assert_eq!(found.len(), 1);
    let expected = 1.0 - (0.99f64 * 0.98 * 0.97);
    assert!((found[0] - expected).abs() < 1e-12);
}

#[test]
fn single_negative_is_an_episode() {
    let found = episodes(&[0.02, -0.05, 0.01], is_loss, loss_magnitude);
    assert_eq!(found.len(), 1);
    assert!((found[0] - 0.05).abs() < 1e-12);
}

#[test]
fn zero_return_stays_in_an_episode() {
    let xs = [-0.01, 0.0, -0.02];
    let found = episodes(&xs, is_loss, loss_magnitude);
    assert_eq!(found.len(), 1);
    assert!((found[0] - (1.0 - 0.99 * 0.98)).abs() < 1e-12);
}

#[test]
fn zero_magnitude_is_dropped() {
    let found = episodes(&[-1e-20, 0.5, -0.5], is_loss, loss_magnitude);
    assert_eq!(found.len(), 1);
    assert!((found[0] - 0.5).abs() < 1e-12);
}

#[test]
fn empty_episode_list_averages_to_zero() {
    let mut average = Mapped::new(
        Rolling::new(2, |w: &[f64], _n: usize| episodes(w, is_loss, loss_magnitude)),
        |xs: &Vec<f64>| {
            if xs.is_empty() {
                0.0
            } else {
                xs.iter().sum::<f64>() / xs.len() as f64
            }
        },
    );
    average.feed(0.01);
    assert_eq!(average.last(), None);
    average.feed(0.02);
    assert_eq!(average.last(), Some(&0.0));
}

#[test]
fn shared_feeds_both_sides() {
    let mut shared = Shared::new(
        Rolling::new(2, sum_window),
        Rolling::new(3, |w: &[i64], _n: usize| w[0]),
        |a: &i64, b: &i64| a * 100 + b,
    );
    feed_all(&mut shared, &[1, 2, 3, 4]);
    assert_eq!(shared.iter(), &[None, None, Some(501), Some(702)][..]);
}

#[test]
fn stepped_sees_previous_observation() {
    let mut stepped = Stepped::new(
        Rolling::new(2, sum_window),
        |previous: Option<&i64>, x: &i64| match previous {
            Some(p) => x - p,
            None => 0,
        },
    );
    feed_all(&mut stepped, &[5, 7, 4, 10]);
    assert_eq!(stepped.iter(), &[None, Some(2), Some(-1), Some(3)][..]);
}

#[test]
fn feed_all_appends_one_slot_each() {
    let mut rolling = Rolling::new(2, sum_window);
    feed_all(&mut rolling, &[1, 2]);
    feed_all(&mut rolling, &[]);
    feed_all(&mut rolling, &[3]);
    assert_eq!(rolling.iter(), &[None, Some(3), Some(5)][..]);
    assert_eq!(rolling.history().len(), 3);
}
