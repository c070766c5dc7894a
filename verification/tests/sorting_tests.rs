use tick_engine::sorting::{dedup_sorted, sort_start_indices};
use tick_engine::states::PoolState;

#[test]
fn sort_start_indices_orders_ascending() {
    let v = vec![600, -600, 0, 600, -1200];
    let sorted = sort_start_indices(&v);
    assert_eq!(sorted, vec![-1200, -600, 0, 600, 600]);
}

#[test]
fn dedup_sorted_removes_adjacent_duplicates() {
    let v = vec![-1200, -600, 0, 600, 600];
    let deduped = dedup_sorted(&v);
    assert_eq!(deduped, vec![-1200, -600, 0, 600]);
}

#[test]
fn sort_and_dedup_handle_empty_input() {
    let empty: Vec<i32> = vec![];
    assert_eq!(sort_start_indices(&empty), Vec::<i32>::new());
    assert_eq!(dedup_sorted(&empty), Vec::<i32>::new());
}

#[test]
fn pool_state_exposes_helper_and_default_arrays() {
    let mut words = [0u64; 16];
    words[8] = 0b11; // arrays 0 and 600 for spacing 10
    let pool = PoolState {
        mint_decimals_0: 9,
        mint_decimals_1: 6,
        tick_spacing: 10,
        tick_current: 123,
        liquidity: 0,
        sqrt_price_x64: 0,
        tick_array_bitmap: words,
    };
    let helper = pool.helper();
    assert_eq!(helper.tick_indices_per_array(), 600);
    assert_eq!(pool.initialized_default_arrays(), vec![0, 600]);
}
