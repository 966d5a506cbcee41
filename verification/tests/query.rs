use playground::query::{pause_seconds, prices, ROUNDS};

#[test]
fn query_pauses_one_to_three_seconds() {
    assert_eq!(pause_seconds(0), 1);
    assert_eq!(pause_seconds(1), 2);
    assert_eq!(pause_seconds(2), 3);
    assert_eq!(pause_seconds(3), 1);
    assert_eq!(pause_seconds(u64::MAX), u64::MAX % 3 + 1);
}

#[test]
fn query_prices_widen_each_draw() {
    assert_eq!(prices([0, 7, 255]), vec![0u32, 7, 255]);
}

#[test]
fn query_runs_twelve_rounds() {
    assert_eq!(ROUNDS, 12);
}
