use tick_engine::indexer::TickArrayHelper;
use tick_engine::resolver::{SurroundingArray, SwapDirection, TickArrayClass};

#[test]
fn blind_buy_t0_orders_favorable_then_core_then_surrounding() {
    // 1% favorable and 2% impact around a raw price of 1.0 at the
    // protocol's price base.
    let tick_favorable = (0.99f64).log(1.0001).floor() as i32;
    let tick_impact = (1.02f64).log(1.0001).floor() as i32;
    assert_eq!(tick_favorable, -101);
    assert_eq!(tick_impact, 198);
    let helper = TickArrayHelper { tick_spacing: 10 };
    let plan = helper.resolve_swap_arrays(0, tick_favorable, tick_impact, SwapDirection::BuyT0, None);
    let starts: Vec<i32> = plan.entries.iter().map(|e| e.start_index).collect();
    assert_eq!(starts, vec![-600, 0]);
    assert!(matches!(plan.entries[0].class, TickArrayClass::Favorable));
    assert!(matches!(plan.entries[1].class, TickArrayClass::Core));
    assert!(matches!(plan.surrounding, SurroundingArray::Found(600)));
}

#[test]
fn blind_buy_t1_emits_descending_starts() {
    let helper = TickArrayHelper { tick_spacing: 10 };
    // impact pushes the tick down to -1500, the favorable move up to 300
    let plan = helper.resolve_swap_arrays(0, 300, -1500, SwapDirection::BuyT1, None);
    let starts: Vec<i32> = plan.entries.iter().map(|e| e.start_index).collect();
    assert_eq!(starts, vec![0, -600, -1200, -1800]);
    for pair in starts.windows(2) {
        assert!(pair[0] > pair[1]);
    }
    assert!(matches!(plan.surrounding, SurroundingArray::Found(-2400)));
}

#[test]
fn blind_buy_t0_emits_ascending_starts() {
    let helper = TickArrayHelper { tick_spacing: 10 };
    let plan = helper.resolve_swap_arrays(0, -300, 1500, SwapDirection::BuyT0, None);
    let starts: Vec<i32> = plan.entries.iter().map(|e| e.start_index).collect();
    assert_eq!(starts, vec![-600, 0, 600, 1200]);
    for pair in starts.windows(2) {
        assert!(pair[0] < pair[1]);
    }
    assert!(matches!(plan.surrounding, SurroundingArray::Found(1800)));
}

#[test]
fn strict_mode_keeps_only_populated_arrays() {
    let helper = TickArrayHelper { tick_spacing: 10 };
    let populated = vec![-600, 600];
    let plan = helper.resolve_swap_arrays(0, -101, 198, SwapDirection::BuyT0, Some(&populated));
    let starts: Vec<i32> = plan.entries.iter().map(|e| e.start_index).collect();
    assert_eq!(starts, vec![-600]);
    assert!(matches!(plan.entries[0].class, TickArrayClass::Favorable));
    assert!(matches!(plan.surrounding, SurroundingArray::Found(600)));
}

#[test]
fn strict_mode_reports_missing_surrounding_array() {
    let helper = TickArrayHelper { tick_spacing: 10 };
    let populated = vec![-1800, -600];
    let plan = helper.resolve_swap_arrays(0, 300, -1500, SwapDirection::BuyT1, Some(&populated));
    let starts: Vec<i32> = plan.entries.iter().map(|e| e.start_index).collect();
    assert_eq!(starts, vec![-600, -1800]);
    assert!(matches!(
        plan.surrounding,
        SurroundingArray::NoSurroundingArrayFound
    ));
}

#[test]
fn strict_mode_finds_nearest_surrounding_below() {
    let helper = TickArrayHelper { tick_spacing: 10 };
    let populated = vec![-3000, -2400, -600];
    let plan = helper.resolve_swap_arrays(0, 300, -1500, SwapDirection::BuyT1, Some(&populated));
    // surrounding must be the nearest populated array strictly below the span
    assert!(matches!(plan.surrounding, SurroundingArray::Found(-2400)));
}

#[test]
fn core_takes_precedence_over_favorable() {
    let helper = TickArrayHelper { tick_spacing: 10 };
    // favorable extreme inside the same array as the core span
    let plan = helper.resolve_swap_arrays(100, 50, 400, SwapDirection::BuyT0, None);
    let starts: Vec<i32> = plan.entries.iter().map(|e| e.start_index).collect();
    assert_eq!(starts, vec![0]);
    assert!(matches!(plan.entries[0].class, TickArrayClass::Core));
}
