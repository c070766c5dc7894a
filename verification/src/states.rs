use vstd::prelude::*;
use crate::indexer::TickArrayHelper;
use crate::indexer::spec_ticks_per_array;
use crate::bitmap::spec_default_decoded;
use crate::bitmap::read_default_bitmap;

verus! {

/// Decoded pool fields that the engine consumes: token decimals, tick
/// spacing, the current tick and the default-tier bitmap words. Byte-level
/// account decoding is the caller's concern; this struct carries the already
/// decoded plain values.
pub struct PoolState {
    pub mint_decimals_0: u8,
    pub mint_decimals_1: u8,
    pub tick_spacing: u16,
    pub tick_current: i32,
    pub liquidity: u128,
    pub sqrt_price_x64: u128,
    pub tick_array_bitmap: [u64; 16],
}

impl PoolState {
    /// A pool is well formed when its tick spacing is positive, as the
    /// protocol guarantees for every deployed pool.
    pub open spec fn wf(&self) -> bool {
        self.tick_spacing >= 1
    }

    /// The tick-array addressing helper for this pool's spacing.
    pub fn helper(&self) -> (r: TickArrayHelper)
        requires
            self.wf(),
        ensures
            r.tick_spacing == self.tick_spacing,
            r.wf(),
    {
        TickArrayHelper { tick_spacing: self.tick_spacing }
    }

    /// The initialized tick-array start indices recorded in this pool's
    /// default-tier bitmap.
    pub fn initialized_default_arrays(&self) -> (r: Vec<i32>)
        requires
            self.wf(),
        ensures
            r@ == spec_default_decoded(
                self.tick_array_bitmap@,
                spec_ticks_per_array(self.tick_spacing),
            ),
    {
        read_default_bitmap(&self.tick_array_bitmap, self.tick_spacing)
    }
}

/// Extension-tier bitmap: fourteen 512-bit chunks per side beyond the
/// default tier's coverage. The negative side stores its bits reversed, a
/// fixed protocol convention handled by the codec.
#[derive(Clone, Copy, PartialEq, Eq, Debug)]
pub struct TickArrayBitmapExtension {
    pub positive_tick_array_bitmap: [[u64; 8]; 14],
    pub negative_tick_array_bitmap: [[u64; 8]; 14],
}

/// One initialized tick boundary: its tick index and the signed and gross
/// liquidity attached to it.
#[derive(Clone, Copy, Debug)]
pub struct TickState {
    pub tick: i32,
    pub liquidity_net: i128,
    pub liquidity_gross: u128,
}

/// One decoded tick-array record: its start index and its sixty slots.
pub struct TickArrayState {
    pub start_tick_index: i32,
    pub ticks: [TickState; 60],
    pub initialized_tick_count: u8,
}

} // verus!
