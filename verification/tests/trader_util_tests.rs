// Trading scenarios of the utilities, run through the library's
// decisions with the float arithmetic done here as the trading engine does it.
use trader::book::{candidate_rates, get_pv_and_rates, preceding_volume};
use trader::order::{key_bits, order_key};
use trader::search::{binary_search, interpolate, Segment};

fn key(x: f64) -> i64 {
    assert!(!x.is_nan());
    order_key(x.to_bits())
}

fn value(k: i64) -> f64 {
    f64::from_bits(key_bits(k))
}

fn keys(v: &[f64]) -> Vec<i64> {
    v.iter().map(|x| key(*x)).collect()
}

fn round(x: f64, pow10: f64) -> f64 {
    (x * pow10).round() / pow10
}

fn precision10(tick: f64) -> f64 {
    10f64.powi(-tick.abs().log10().round() as i32)
}

fn cmp_vectors(a: &Vec<f64>, b: &Vec<f64>, tolerance: f64) -> bool {
    let match_count = a
        .iter()
        .zip(b.iter())
        .filter(|&(x, y)| (x - y).abs() < tolerance)
        .count();
    match_count == a.len() && match_count == b.len()
}

/// The improved rates and the conflict flags of a book side.
fn shifted_and_distinct(rates: &Vec<f64>, tick: f64, pow10: f64) -> (Vec<f64>, Vec<bool>) {
    let shifted: Vec<f64> = rates.iter().map(|r| round(r + tick, pow10)).collect();
    let mut distinct = vec![true];
    for i in 1..rates.len() {
        distinct.push(!(round((rates[i] + tick - rates[i - 1]).abs(), pow10) < tick.abs()));
    }
    (shifted, distinct)
}

fn cumulative_sum(rates: &Vec<f64>, quantities: &Vec<f64>, pow10: f64) -> Vec<f64> {
    let mut cumulative: f64 = 0f64;
    let mut out = Vec::new();
    for (&r, &q) in rates.iter().zip(quantities.iter()) {
        cumulative += r * q;
        out.push(round(cumulative, pow10));
    }
    out
}

fn run_get_pv_and_rates(r: &Vec<f64>, q: &Vec<f64>, opposite_best: f64, tick: f64) -> (Vec<f64>, Vec<f64>) {
    let pow10 = precision10(tick);
    let (shifted, distinct) = shifted_and_distinct(r, tick, pow10);
    let cum_sum = cumulative_sum(r, q, pow10);
    let mut candidates: Vec<i64> = vec![];
    let mut pv: Vec<f64> = vec![];
    get_pv_and_rates(
        &keys(r),
        &keys(&shifted),
        &distinct,
        &cum_sum,
        0f64,
        key(opposite_best),
        key(tick),
        false,
        &mut candidates,
        &mut pv,
    );
    let rates: Vec<f64> = candidates.iter().map(|k| value(*k)).collect();
    (pv, rates)
}

fn interpolate_values(pv: &Vec<f64>, x: &Vec<f64>, y: &Vec<f64>) -> Vec<f64> {
    let segments = interpolate(&keys(pv), &keys(x));
    let mut out = vec![];
    for (p, s) in pv.iter().zip(segments.iter()) {
        match *s {
            Segment::Before => out.push(y[0]),
            Segment::After => out.push(y[y.len() - 1]),
            Segment::Within(i) => {
                let m = (y[i + 1] - y[i]) / (x[i + 1] - x[i]);
                let b = y[i] - m * x[i];
                out.push(m * p + b);
            }
        }
    }
    out
}

#[test]
fn test_co1_buy_get_pv_and_rates_1() {
    let r = vec![0.4f64, 0.3f64, 0.2f64, 0.1f64];
    let q = vec![10f64, 20f64, 30f64, 40f64];
    let (pv, rates) = run_get_pv_and_rates(&r, &q, std::f64::INFINITY, 0.01f64);
    let mut expected_pv = vec![0.0, 4.0, 10.0, 16.0];
    expected_pv.reverse();
    let mut expected_rates = vec![0.41f64, 0.31f64, 0.21f64, 0.11f64];
    expected_rates.reverse();
    assert!(pv == expected_pv);
    assert!(rates == expected_rates);
}

#[test]
fn test_candidate_rates_0() {
    let rates = vec![0.4, 0.3, 0.2, 0.1];
    let tick = 1e-8;
    let pow10 = precision10(tick);
    let mut expected_candidate_rates = vec![0.40000001, 0.30000001, 0.20000001, 0.10000001];
    expected_candidate_rates.reverse();
    let (shifted, distinct) = shifted_and_distinct(&rates, tick, pow10);
    let mut out: Vec<f64> = vec![];
    candidate_rates(&shifted, &distinct, false, &mut out);
    assert_eq!(out, expected_candidate_rates);
}

#[test]
fn test_candidate_rates_1() {
    let rates = vec![0.4, 0.3, 0.2, 0.1];
    let tick = -1e-8;
    let pow10 = precision10(tick);
    let mut expected_candidate_rates = vec![0.39999999, 0.29999999, 0.19999999, 0.09999999];
    expected_candidate_rates.reverse();
    let (shifted, distinct) = shifted_and_distinct(&rates, tick, pow10);
    let mut out: Vec<f64> = vec![];
    candidate_rates(&shifted, &distinct, false, &mut out);
    assert_eq!(out, expected_candidate_rates);
}

#[test]
fn test_co1_buy_get_pv_and_rates_2() {
    let r = vec![0.4f64, 0.3f64, 0.2f64, 0.1f64];
    let q = vec![10f64, 20f64, 30f64, 40f64];
    let (pv, rates) = run_get_pv_and_rates(&r, &q, std::f64::INFINITY, 0.1f64);
    let expected_pv = vec![0f64];
    let expected_rates = vec![0.5f64];
    assert!(rates == expected_rates);
    assert!(pv == expected_pv);
}

#[test]
fn test_co1_buy_get_pv_and_rates_3() {
    let r = vec![0.1f64];
    let q = vec![10f64];
    let (pv, rates) = run_get_pv_and_rates(&r, &q, std::f64::INFINITY, 0.01f64);
    let expected_pv = vec![0f64];
    let expected_rates = vec![0.11f64];
    assert!(pv == expected_pv);
    assert!(rates == expected_rates);
}

#[test]
fn test_co1_sell_get_pv_and_rates_1() {
    let r = vec![0.2f64, 0.3f64, 0.4f64, 0.5f64];
    let q = vec![10f64, 20f64, 30f64, 40f64];
    let (pv, rates) = run_get_pv_and_rates(&r, &q, std::f64::INFINITY, -0.01f64);
    let mut expected_pv = vec![0.0, 2.0, 8.0, 20.0];
    expected_pv.reverse();
    let mut expected_rates = vec![0.19f64, 0.29f64, 0.39f64, 0.49f64];
    expected_rates.reverse();
    assert!(rates == expected_rates);
    assert!(pv == expected_pv);
}

#[test]
fn test_co1_sell_get_pv_and_rates_2() {
    let r = vec![0.2f64, 0.3f64, 0.4f64, 0.5f64];
    let q = vec![10f64, 20f64, 30f64, 40f64];
    let (pv, rates) = run_get_pv_and_rates(&r, &q, std::f64::INFINITY, -0.1f64);
    let expected_pv = vec![0f64];
    let expected_rates = vec![0.1f64];
    assert!(pv == expected_pv);
    assert!(rates == expected_rates);
}

#[test]
fn test_co1_sell_get_pv_and_rates_3() {
    let r = vec![0.1f64];
    let q = vec![10f64];
    let (pv, rates) = run_get_pv_and_rates(&r, &q, std::f64::INFINITY, -0.01f64);
    let expected_pv = vec![0f64];
    let expected_rates = vec![0.09f64];
    assert!(pv == expected_pv);
    assert!(rates == expected_rates);
}

#[test]
fn test_buy_remove_overlap_with_sell_side() {
    let r = vec![0.4f64, 0.3f64, 0.2f64, 0.1f64];
    let q = vec![10f64, 20f64, 30f64, 40f64];
    let (pv, rates) = run_get_pv_and_rates(&r, &q, 0.41f64, 0.01f64);
    let mut expected_pv = vec![4.0, 10.0, 16.0];
    expected_pv.reverse();
    let mut expected_rates = vec![0.31f64, 0.21f64, 0.11f64];
    expected_rates.reverse();
    assert!(pv == expected_pv);
    assert!(rates == expected_rates);
}

#[test]
fn test_sell_remove_overlap_with_buy_side() {
    let r = vec![0.2f64, 0.3f64, 0.4f64, 0.5f64];
    let q = vec![10f64, 20f64, 30f64, 40f64];
    let (pv, rates) = run_get_pv_and_rates(&r, &q, 0.19f64, -0.01f64);
    let mut expected_pv = vec![2.0, 8.0, 20.0];
    expected_pv.reverse();
    let mut expected_rates = vec![0.29f64, 0.39f64, 0.49f64];
    expected_rates.reverse();
    assert!(rates == expected_rates);
    assert!(pv == expected_pv);
}

fn check_binary_search(v: f64, lo: f64, hi: f64) {
    let x_vec: Vec<f64> = vec![0f64, 1f64, 2f64, 3f64, 4f64];
    let y_vec: Vec<f64> = vec![0f64, 1f64, 2f64, 3f64, 4f64];
    let (x, y) = binary_search(&keys(&x_vec), &y_vec, key(v));
    assert!(value(x.0) == lo);
    assert!(value(x.1) == hi);
    assert!(y.0 == lo);
    assert!(y.1 == hi);
}

#[test]
fn test_binary_search_0() {
    check_binary_search(1.5f64, 1f64, 2f64);
}

#[test]
fn test_binary_search_1() {
    check_binary_search(1f64, 1f64, 2f64);
}

#[test]
fn test_binary_search_2() {
    check_binary_search(1.999999999f64, 1f64, 2f64);
}

#[test]
fn test_binary_search_3() {
    check_binary_search(2f64, 2f64, 3f64);
}

#[test]
fn test_binary_search_4() {
    check_binary_search(-1f64, 0f64, 1f64);
}

#[test]
fn test_binary_search_5() {
    check_binary_search(100f64, 3f64, 4f64);
}

#[test]
fn test_interpolate_0() {
    let pv = vec![-0.5f64, 0.5f64, 1.5f64, 2.5f64, 3.5f64, 4.5f64];
    let x_vec: Vec<f64> = vec![0f64, 1f64, 2f64, 3f64, 4f64];
    let y_vec: Vec<f64> = vec![0f64, 1f64, 2f64, 3f64, 4f64];
    let evol = interpolate_values(&pv, &x_vec, &y_vec);
    let expected_evol = vec![0f64, 0.5f64, 1.5f64, 2.5f64, 3.5f64, 4f64];
    assert!(expected_evol == evol);
}

#[test]
fn test_interpolate_1() {
    let pv = vec![-0.5f64, 0.5f64, 1.5f64, 2.5f64, 3.5f64, 4.5f64];
    let x_vec: Vec<f64> = vec![0f64, 1f64, 2f64, 3f64, 5f64];
    let y_vec: Vec<f64> = vec![0f64, 1f64, 2f64, 3f64, 5f64];
    let evol = interpolate_values(&pv, &x_vec, &y_vec);
    let expected_evol = vec![0f64, 0.5f64, 1.5f64, 2.5f64, 3.5f64, 4.5f64];
    assert!(expected_evol == evol);
}

#[test]
fn test_interpolate_2() {
    let pv = vec![-0.5f64, 0.5f64, 1.5f64, 2.5f64, 3.5f64, 4f64];
    let x_vec: Vec<f64> = vec![0f64, 1f64, 2f64, 3f64, 5f64];
    let y_vec: Vec<f64> = vec![0f64, 1f64, 2f64, 3f64, 5f64];
    let evol = interpolate_values(&pv, &x_vec, &y_vec);
    let expected_evol = vec![0f64, 0.5f64, 1.5f64, 2.5f64, 3.5f64, 4f64];
    assert!(expected_evol == evol);
}

#[test]
fn test_interpolate_3() {
    let pv = vec![-0.5f64, 0.5f64, 1.5f64, 2.5f64, 3.5f64, 4f64];
    let x_vec: Vec<f64> = vec![0f64, 1f64, 2f64, 3f64, 5f64];
    let y_vec: Vec<f64> = vec![0f64, 1f64, 2f64, 3f64, 4f64];
    let tick = 1e-8;
    let evol = interpolate_values(&pv, &x_vec, &y_vec);
    let expected_evol = vec![0f64, 0.5f64, 1.5f64, 2.5f64, 3.25f64, 3.5f64];
    assert!(cmp_vectors(&evol, &expected_evol, tick));
}

#[test]
fn test_interpolate_4() {
    let pv = vec![-0.5f64, 0.5f64, 1.5f64, 2.5f64, 3.5f64, 6f64];
    let x_vec: Vec<f64> = vec![0f64, 1f64, 2f64, 3f64, 5f64];
    let y_vec: Vec<f64> = vec![0f64, 1f64, 2f64, 3f64, 4f64];
    let tick = 1e-8;
    let evol = interpolate_values(&pv, &x_vec, &y_vec);
    let expected_evol = vec![0f64, 0.5f64, 1.5f64, 2.5f64, 3.25f64, 4f64];
    assert!(cmp_vectors(&evol, &expected_evol, tick));
}

#[test]
fn preceding_volume_counts_levels_ahead() {
    // Buy side: bids 0.4, 0.3, 0.2, 0.1 with cumulative volumes 4, 10, 16, 20.
    let rates = keys(&vec![0.4, 0.3, 0.2, 0.1]);
    let cum = vec![4.0, 10.0, 16.0, 20.0];
    assert_eq!(preceding_volume(key(0.01), key(0.11), &rates, &cum, 0.0), 16.0);
    assert_eq!(preceding_volume(key(0.01), key(0.3), &rates, &cum, 0.0), 10.0);
    assert_eq!(preceding_volume(key(0.01), key(0.41), &rates, &cum, 0.0), 0.0);
    assert_eq!(preceding_volume(key(0.01), key(0.05), &rates, &cum, 0.0), 20.0);
    // Sell side: asks 0.2, 0.3 with cumulative volumes 2, 8.
    let asks = keys(&vec![0.2, 0.3]);
    let cum_asks = vec![2.0, 8.0];
    assert_eq!(preceding_volume(key(-0.01), key(0.29), &asks, &cum_asks, 0.0), 2.0);
    assert_eq!(preceding_volume(key(-0.01), key(0.19), &asks, &cum_asks, 0.0), 0.0);
}
