use tick_engine::liquidity::{
    collect_initialized_ticks, format_liquidity, liquidity_segments, max_cumulative_liquidity,
    sort_tick_deltas, LiquiditySegment,
};
use tick_engine::states::{TickArrayState, TickState};

#[test]
fn sort_tick_deltas_orders_by_tick() {
    let v = vec![(20i32, -50i128), (0, 100), (10, -50), (0, 7)];
    let sorted = sort_tick_deltas(&v);
    let ticks: Vec<i32> = sorted.iter().map(|t| t.0).collect();
    assert_eq!(ticks, vec![0, 0, 10, 20]);
    assert_eq!(sorted.len(), 4);
    let mut deltas: Vec<i128> = sorted.iter().map(|t| t.1).collect();
    deltas.sort();
    assert_eq!(deltas, vec![-50, -50, 7, 100]);
}

#[test]
fn max_cumulative_liquidity_is_peak_of_running_sum() {
    let v = vec![(0i32, 100i128), (10, -50), (20, -50)];
    assert_eq!(max_cumulative_liquidity(&v), 100);
    let rising = vec![(0i32, 10i128), (5, 20), (9, -5)];
    assert_eq!(max_cumulative_liquidity(&rising), 30);
    let negative = vec![(0i32, -10i128)];
    assert_eq!(max_cumulative_liquidity(&negative), 0);
    let empty: Vec<(i32, i128)> = vec![];
    assert_eq!(max_cumulative_liquidity(&empty), 0);
}

#[test]
fn liquidity_segments_between_adjacent_boundaries() {
    let v = vec![(0i32, 100i128), (10, -50), (20, -50)];
    let segs = liquidity_segments(&v);
    assert_eq!(
        segs,
        vec![
            LiquiditySegment { tick_lower: 0, tick_upper: 9, cumulative: 100 },
            LiquiditySegment { tick_lower: 10, tick_upper: 19, cumulative: 50 },
        ]
    );
}

#[test]
fn liquidity_segments_skip_nonpositive_stretches() {
    let v = vec![(0i32, -5i128), (10, 30), (20, -25)];
    let segs = liquidity_segments(&v);
    assert_eq!(
        segs,
        vec![LiquiditySegment { tick_lower: 10, tick_upper: 19, cumulative: 25 }]
    );
}

#[test]
fn collect_initialized_ticks_keeps_nonzero_gross_slots() {
    let empty_slot = TickState { tick: 0, liquidity_net: 0, liquidity_gross: 0 };
    let mut ticks = [empty_slot; 60];
    ticks[2] = TickState { tick: 620, liquidity_net: 400, liquidity_gross: 400 };
    ticks[59] = TickState { tick: 1190, liquidity_net: -400, liquidity_gross: 400 };
    let arrays = vec![TickArrayState {
        start_tick_index: 600,
        ticks,
        initialized_tick_count: 2,
    }];
    let collected = collect_initialized_ticks(&arrays);
    assert_eq!(collected, vec![(620, 400), (1190, -400)]);
}

#[test]
fn format_liquidity_scales_with_unit_suffixes() {
    assert_eq!(format_liquidity(0), "0");
    assert_eq!(format_liquidity(999), "999");
    assert_eq!(format_liquidity(1000), "1.00K");
    assert_eq!(format_liquidity(1234), "1.23K");
    assert_eq!(format_liquidity(999995), "1000.00K");
    assert_eq!(format_liquidity(1500000), "1.50M");
    assert_eq!(format_liquidity(123456789), "123.46M");
    assert_eq!(format_liquidity(2350000000), "2.35B");
    assert_eq!(format_liquidity(1000000000000), "1.00T");
    assert_eq!(format_liquidity(1999990000000), "2.00T");
    assert_eq!(
        format_liquidity(u128::MAX),
        "340282366920938463463374607.43T"
    );
}
