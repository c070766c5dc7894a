use std::str::FromStr;

use solana_sdk::pubkey::Pubkey;
use tick_engine::indexer::TickArrayHelper;
use tick_engine::pda::derive_bitmap_extension_address;

const PROGRAM_ID: &str = "CAMMCzo5YL8w4VFF8KVHrK22GGUsp5VTaW7grrKgrWqK";

#[test]
fn tick_array_address_matches_direct_derivation() {
    let pool = Pubkey::from([7u8; 32]);
    let program = Pubkey::from_str(PROGRAM_ID).unwrap();
    let helper = TickArrayHelper { tick_spacing: 10 };
    // 601 floors to the array starting at 600
    let derived = helper
        .derive_tick_array_address(&pool.to_bytes(), &program.to_bytes(), 601)
        .expect("a bump seed should exist");
    let expected = Pubkey::find_program_address(
        &[b"tick_array", pool.as_ref(), &600i32.to_be_bytes()],
        &program,
    );
    assert_eq!(derived.0, expected.0.to_bytes());
    assert_eq!(derived.1, expected.1);
}

#[test]
fn negative_tick_array_address_uses_floored_start() {
    let pool = Pubkey::from([9u8; 32]);
    let program = Pubkey::from_str(PROGRAM_ID).unwrap();
    let helper = TickArrayHelper { tick_spacing: 10 };
    // -1 floors to the array starting at -600
    let derived = helper
        .derive_tick_array_address(&pool.to_bytes(), &program.to_bytes(), -1)
        .expect("a bump seed should exist");
    let expected = Pubkey::find_program_address(
        &[b"tick_array", pool.as_ref(), &(-600i32).to_be_bytes()],
        &program,
    );
    assert_eq!(derived.0, expected.0.to_bytes());
    assert_eq!(derived.1, expected.1);
}

#[test]
fn bitmap_extension_address_matches_direct_derivation() {
    let pool = Pubkey::from([42u8; 32]);
    let program = Pubkey::from_str(PROGRAM_ID).unwrap();
    let derived = derive_bitmap_extension_address(&pool.to_bytes(), &program.to_bytes())
        .expect("a bump seed should exist");
    let expected = Pubkey::find_program_address(
        &[b"pool_tick_array_bitmap_extension", pool.as_ref()],
        &program,
    );
    assert_eq!(derived.0, expected.0.to_bytes());
    assert_eq!(derived.1, expected.1);
}
