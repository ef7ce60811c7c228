use indicators::composite::{Mapped, Paired, Shared};
use indicators::drawdown::episodes;
use indicators::mode::{Geometric, Mode, Simple};
use indicators::rolling::Rolling;
use indicators::{feed_all, Indicator};
use statrs::statistics::Statistics;

const XS: [f64; 10] = [
    0.003, 0.026, 0.015, -0.009, 0.014, 0.024, 0.015, 0.066, -0.014, 0.039,
];

const YS: [f64; 10] = [
    -0.005, 0.081, 0.04, -0.037, -0.061, 0.058, -0.049, -0.021, 0.062, 0.058,
];

fn assert_approx(expected: f64, actual: f64, epsilon: f64) {
    assert!(
        (expected - actual).abs() <= epsilon,
        "expected {} but got {}",
        expected,
        actual
    );
}

fn geometric_annualized(freq: usize) -> impl Fn(&[f64], usize) -> f64 {
    move |w: &[f64], _n: usize| {
        let n = w.len().min(freq);
        let ret = w.iter().map(|x| x + 1.0).fold(1.0, |acc, x| acc * x);
        ret.powf(freq as f64 / n as f64) - 1.0
    }
}

fn ror_of(w: &[f64], _n: usize) -> f64 {
    let mut acc = 1.0;
    let mut first = None;
    for x in w {
        acc *= x + 1.0;
        if first.is_none() {
            first = Some(acc);
        }
    }
    acc / first.unwrap() - 1.0
}

fn downside_risk_of(mar: f64) -> impl Fn(&[f64], usize) -> f64 {
    move |w: &[f64], n: usize| {
        w.iter()
            .fold(0.0, |acc, x| acc + (x - mar).min(0.0).powf(2.0) / n as f64)
            .sqrt()
    }
}

fn loss_magnitude(run: &[f64]) -> Option<f64> {
    let s = run.iter().fold(1.0, |s, x| s * (1.0 + x));
    let dd = 1.0 - s;
    if dd != 0.0 {
        Some(dd)
    } else {
        None
    }
}

fn drawdown_episodes(w: &[f64], _n: usize) -> Vec<f64> {
    episodes(w, |x: &f64| *x <= 0.0, loss_magnitude)
}

#[test]
fn annualized_return_geometric() {
    assert_eq!(Geometric.mode(), Mode::Geometric);
    let mut indicator = Rolling::new(10, geometric_annualized(10));
    feed_all(&mut indicator, &XS);
    assert_approx(0.19135615147149543, *indicator.last().unwrap(), 0.0000001);
}

#[test]
fn simple() {
    assert_eq!(Simple.mode(), Mode::Simple);
    let mut indicator = Rolling::new(10, |w: &[f64], _n: usize| w.iter().mean() * 10.0);
    feed_all(&mut indicator, &XS);
    assert_approx(0.179, *indicator.last().unwrap(), 0.0000001);
}

#[test]
fn annualized_risk() {
    let mut indicator =
        Rolling::new(10, |w: &[f64], _n: usize| w.iter().std_dev() * (10.0f64).sqrt());
    feed_all(&mut indicator, &XS);
    assert_approx(0.07346125206907078, *indicator.last().unwrap(), 0.0000001);
}

#[test]
fn continuous_drawdown_drawdown() {
    let mut indicator = Rolling::new(10, drawdown_episodes);
    feed_all(&mut indicator, &XS);
    let found = indicator.last().unwrap();
    assert_eq!(found.len(), 2);
    assert_approx(0.009, found[0], 0.0000001);
    assert_approx(0.014, found[1], 0.0000001);
}

#[test]
fn average_drawdown() {
    let mut indicator = Mapped::new(Rolling::new(10, drawdown_episodes), |xs: &Vec<f64>| {
        xs.iter().mean()
    });
    feed_all(&mut indicator, &XS);
    assert_approx(0.0115, *indicator.last().unwrap(), 0.0000001);
}

#[test]
fn maximum_drawdown() {
    let mut indicator = Mapped::new(Rolling::new(10, drawdown_episodes), |xs: &Vec<f64>| {
        Statistics::max(xs.iter())
    });
    feed_all(&mut indicator, &XS);
    assert_approx(0.0140, *indicator.last().unwrap(), 0.0000001);
}

#[test]
fn drawndown_drawdown() {
    let mut indicator = Rolling::new(10, |w: &[f64], _n: usize| {
        let mut s = 1.0;
        let mut mx = 1.0f64;
        let mut dr = 0.0;
        for x in w {
            let v = (1.0 + x) * s;
            mx = v.max(mx);
            s = v;
            dr = (mx - v) / mx;
        }
        dr
    });
    feed_all(&mut indicator, &XS);
    assert_approx(0.0, *indicator.last().unwrap(), 0.0000001);
}

#[test]
fn ror() {
    let mut indicator = Rolling::new(10, ror_of);
    feed_all(&mut indicator, &XS);
    assert_approx(0.187793, *indicator.last().unwrap(), 0.000001);
}

#[test]
fn cagr() {
    let p = 12.0 / 10.0;
    let mut indicator = Mapped::new(Rolling::new(10, ror_of), move |ror: &f64| {
        (1.0 + ror).powf(p) - 1.0
    });
    feed_all(&mut indicator, &XS);
    assert_approx(0.229388, *indicator.last().unwrap(), 0.000001);
}

#[test]
fn sharpe_ratio() {
    let risk_free: f64 = 0.0;
    let rf = (1.0 + risk_free).powf(1.0 / 10.0) - 1.0;
    let mut indicator = Rolling::new(10, move |w: &[f64], _n: usize| {
        (w.iter().mean() - rf) / w.iter().std_dev()
    });
    feed_all(&mut indicator, &XS);
    assert_approx(0.7705391, *indicator.last().unwrap(), 0.0000001);
}

#[test]
fn sortino_ratio() {
    let risk_free = 0.0;
    let mut indicator = Shared::new(
        Rolling::new(10, |w: &[f64], _n: usize| w.iter().mean()),
        Rolling::new(10, downside_risk_of(0.0)),
        move |mean: &f64, risk: &f64| (mean - risk_free) / risk,
    );
    feed_all(&mut indicator, &XS);
    assert_approx(3.401051, *indicator.last().unwrap(), 0.0000001);
}

#[test]
fn downside_risk() {
    let mut indicator = Rolling::new(10, downside_risk_of(0.1 / 100.0));
    feed_all(&mut indicator, &XS);
    assert_approx(0.00570088, *indicator.last().unwrap(), 0.0000001);
}

#[test]
fn downside_potential_downside_potential() {
    let mar = 0.1 / 100.0;
    let mut indicator = Rolling::new(10, move |w: &[f64], n: usize| {
        w.iter().fold(0.0, |acc, x| acc + (mar - x).max(0.0) / n as f64)
    });
    feed_all(&mut indicator, &XS);
    assert_approx(0.0025, *indicator.last().unwrap(), 0.0000001);
}

#[test]
fn upside_potential_downside_potential() {
    let mar = 0.1 / 100.0;
    let mut indicator = Rolling::new(10, move |w: &[f64], n: usize| {
        w.iter().fold(0.0, |acc, x| acc + (x - mar).max(0.0) / n as f64)
    });
    feed_all(&mut indicator, &XS);
    assert_approx(0.0194, *indicator.last().unwrap(), 0.0000001);
}

#[test]
fn rolling_economic_drawndown() {
    let mut indicator = Rolling::new(10, |w: &[f64], _n: usize| {
        1.0 - w[w.len() - 1] / Statistics::max(w.iter())
    });
    feed_all(&mut indicator, &XS);
    assert_approx(0.40909090909090917, *indicator.last().unwrap(), 0.0000001);
}

#[test]
fn active_return_geometric() {
    let mut indicator = Paired::new(
        Rolling::new(10, geometric_annualized(10)),
        Rolling::new(10, geometric_annualized(10)),
        |a: &f64, b: &f64| a - b,
    );
    for (x, y) in XS.iter().zip(YS.iter()) {
        indicator.feed((*x, *y));
    }
    assert_approx(0.07183306403588108, *indicator.last().unwrap(), 0.0000001);
}
