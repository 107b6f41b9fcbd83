use back_test::capital::{total_order_key_of, CapitalReturns};

fn caps(v: &[Option<f64>]) -> CapitalReturns {
    CapitalReturns(v.iter().map(|o| o.map(|c| c.to_bits())).collect())
}

#[test]
fn keys_follow_the_total_order() {
    assert_eq!(total_order_key_of(0.0f64.to_bits()), 0);
    assert_eq!(total_order_key_of((-0.0f64).to_bits()), -1);
    assert_eq!(total_order_key_of(1.0f64.to_bits()), 1.0f64.to_bits() as i64);
    assert!(total_order_key_of((-1.0f64).to_bits()) < total_order_key_of((-0.5f64).to_bits()));
    assert!(total_order_key_of(f64::NAN.to_bits()) > total_order_key_of(f64::INFINITY.to_bits()));
    assert_eq!(total_order_key_of(0x8000_0000_0000_0001), -2);
    assert_eq!(total_order_key_of(u64::MAX), i64::MIN);
}

#[test]
fn ranking_skips_missing_days_and_orders_by_capital() {
    let c = caps(&[None, Some(1.5), Some(-2.0), Some(3.0), None, Some(0.25)]);
    assert_eq!(c.sorting_final_capital().0, vec![3, 1, 5, 2]);
}

#[test]
fn ranking_of_no_capitals_is_empty() {
    assert!(caps(&[None, None]).sorting_final_capital().0.is_empty());
    assert!(caps(&[]).sorting_final_capital().0.is_empty());
}

#[test]
fn ranking_puts_positive_zero_above_negative_zero() {
    let c = caps(&[Some(-0.0), Some(0.0)]);
    assert_eq!(c.sorting_final_capital().0, vec![1, 0]);
}

#[test]
fn ranking_keeps_every_tied_day() {
    let c = caps(&[Some(2.0), Some(2.0), Some(1.0)]);
    let r = c.sorting_final_capital().0;
    assert_eq!(r.len(), 3);
    assert_eq!(r[2], 2);
    assert!(r.contains(&0) && r.contains(&1));
}

#[test]
fn best_and_worst_windows_come_first_after_thinning() {
    let mut v: Vec<Option<f64>> = vec![None; 250];
    for i in 250..600 {
        let x = i as f64;
        v.push(Some(100_000.0 + 5_000.0 * (x / 17.0).sin() + x));
    }
    let c = caps(&v);
    let ranking = c.sorting_final_capital();
    let best = ranking.remove_redundant_from_maximum();
    let worst = ranking.remove_redundant_from_minimum();
    let max_day = (250..600).max_by(|a, b| v[*a].unwrap().total_cmp(&v[*b].unwrap())).unwrap();
    let min_day = (250..600).min_by(|a, b| v[*a].unwrap().total_cmp(&v[*b].unwrap())).unwrap();
    assert_eq!(v[best.0[0]], v[max_day]);
    assert_eq!(v[worst.0[0]], v[min_day]);
    for k in 1..best.0.len() {
        assert!(v[best.0[k - 1]].unwrap() >= v[best.0[k]].unwrap());
    }
}
