use vstd::prelude::*;
use vstd::arithmetic::div_mod::lemma_fundamental_div_mod;
use vstd::arithmetic::div_mod::lemma_fundamental_div_mod_converse;
use vstd::arithmetic::div_mod::lemma_mod_multiples_basic;
use vstd::arithmetic::div_mod::lemma_div_multiples_vanish;
use vstd::arithmetic::div_mod::lemma_mod_division_less_than_divisor;

verus! {

/// Number of storage slots in one tick-array record.
pub const TICK_ARRAY_SIZE: i32 = 60;

/// Width of one tick array on the tick line, in tick indices.
pub open spec fn spec_ticks_per_array(tick_spacing: u16) -> int {
    60 * tick_spacing
}

/// Largest multiple of `step` at or below `tick`. The spec-level `/` on `int`
/// rounds toward negative infinity for a positive divisor, which is exactly
/// the alignment convention the on-chain program uses.
pub open spec fn spec_floor_align(tick: int, step: int) -> int
    recommends
        step > 0,
{
    (tick / step) * step
}

/// The slot (0..=59) inside its tick array that holds the boundary for `tick`,
/// after snapping `tick` down to a valid spacing boundary.
pub open spec fn spec_slot_offset(tick: int, tick_spacing: u16) -> int {
    let aligned = spec_floor_align(tick, tick_spacing as int);
    (aligned - spec_floor_align(aligned, spec_ticks_per_array(tick_spacing))) / (
    tick_spacing as int)
}

/// Floor alignment never moves a tick by a whole step or more.
pub proof fn lemma_floor_align_bounds(tick: int, step: int)
    requires
        step > 0,
    ensures
        spec_floor_align(tick, step) <= tick < spec_floor_align(tick, step) + step,
        spec_floor_align(tick, step) % step == 0,
{
    lemma_fundamental_div_mod(tick, step);
    lemma_mod_division_less_than_divisor(tick, step);
    lemma_mod_multiples_basic(tick / step, step);
    assert((tick / step) * step == step * (tick / step)) by (nonlinear_arith);
}

/// Aligning an already aligned tick changes nothing: the start index of the
/// array that contains an array's start index is that same start index.
pub proof fn lemma_floor_align_idempotent(tick: int, step: int)
    requires
        step > 0,
    ensures
        spec_floor_align(spec_floor_align(tick, step), step) == spec_floor_align(tick, step),
{
    lemma_div_multiples_vanish(tick / step, step);
}

/// The inclusive tick range of the array that owns a tick contains that
/// tick: no tick falls between two arrays.
pub proof fn lemma_array_range_contains_tick(tick: int, tpa: int)
    requires
        tpa > 0,
    ensures
        spec_floor_align(tick, tpa) <= tick <= spec_floor_align(tick, tpa) + tpa - 1,
{
    lemma_floor_align_bounds(tick, tpa);
}

/// The array windows partition the tick line: a tick lying inside the
/// window of an aligned start index belongs to that window and no other,
/// since the start is recovered uniquely from the tick.
pub proof fn lemma_array_windows_disjoint(tick: int, s: int, tpa: int)
    requires
        tpa > 0,
        s % tpa == 0,
        s <= tick <= s + tpa - 1,
    ensures
        s == spec_floor_align(tick, tpa),
{
    lemma_fundamental_div_mod(s, tpa);
    assert((s / tpa) * tpa == tpa * (s / tpa)) by (nonlinear_arith);
    lemma_fundamental_div_mod_converse(tick, tpa, s / tpa, tick - s);
}

/// A negative-aware floor division expressed with unsigned machine division:
/// for `m > 0`, `(-m) / d` (rounding toward negative infinity) is the negated
/// ceiling of `m / d`.
proof fn lemma_neg_floor_div(m: int, d: int)
    requires
        m > 0,
        d > 0,
    ensures
        (-m) / d == -((m + d - 1) / d),
{
    let q = (m + d - 1) / d;
    let r = (m + d - 1) % d;
    lemma_fundamental_div_mod(m + d - 1, d);
    lemma_mod_division_less_than_divisor(m + d - 1, d);
    assert(m + d - 1 == q * d + r);
    // Rearranged: -m == (-q) * d + (d - 1 - r), with the remainder in [0, d).
    assert((-q) * d == -(q * d)) by (nonlinear_arith);
    lemma_fundamental_div_mod_converse(-m, d, -q, d - 1 - r);
}

/// Tick-array addressing and alignment arithmetic for one pool's tick spacing.
pub struct TickArrayHelper {
    pub tick_spacing: u16,
}

impl TickArrayHelper {
    /// A helper is well formed when its spacing is positive, as the protocol
    /// requires of every pool.
    pub open spec fn wf(&self) -> bool {
        self.tick_spacing >= 1
    }

    pub open spec fn spec_tpa(&self) -> int {
        spec_ticks_per_array(self.tick_spacing)
    }

    /// Total number of tick indices covered by one tick array.
    pub fn tick_indices_per_array(&self) -> (r: i32)
        requires
            self.wf(),
        ensures
            r == self.spec_tpa(),
            60 <= r <= 3932100,
    {
        TICK_ARRAY_SIZE * self.tick_spacing as i32
    }

    /// Start tick index of the array that contains `tick_index`: `tick_index`
    /// floor-divided by the array width and multiplied back, rounding toward
    /// negative infinity so that negative ticks land in the array below them.
    pub fn get_array_start_index(&self, tick_index: i32) -> (r: i32)
        requires
            self.wf(),
            tick_index >= i32::MIN + self.spec_tpa() - 1,
        ensures
            r == spec_floor_align(tick_index as int, self.spec_tpa()),
            r % (self.spec_tpa() as i32) == 0,
            r <= tick_index < r + self.spec_tpa(),
    {
        let ticks_in_array = self.tick_indices_per_array();
        let r = floor_align(tick_index, ticks_in_array);
        proof {
            lemma_floor_align_bounds(tick_index as int, self.spec_tpa());
        }
        r
    }

    /// Inclusive range of tick indices covered by the array starting at
    /// `start_index`.
    pub fn get_array_tick_range(&self, start_index: i32) -> (r: (i32, i32))
        requires
            self.wf(),
            start_index + self.spec_tpa() - 1 <= i32::MAX,
        ensures
            r.0 == start_index,
            r.1 == start_index + self.spec_tpa() - 1,
    {
        let end_index = start_index + (self.tick_indices_per_array() - 1);
        (start_index, end_index)
    }

    /// Snaps `tick` to the nearest valid spacing boundary at or below it,
    /// rounding toward negative infinity.
    pub fn align_tick_to_spacing(&self, tick: i32) -> (r: i32)
        requires
            self.wf(),
            tick >= i32::MIN + self.tick_spacing - 1,
        ensures
            r == spec_floor_align(tick as int, self.tick_spacing as int),
            r % (self.tick_spacing as i32) == 0,
            r <= tick < r + self.tick_spacing,
    {
        let step = self.tick_spacing as i32;
        let r = floor_align(tick, step);
        proof {
            lemma_floor_align_bounds(tick as int, step as int);
        }
        r
    }

    /// Storage slot within the owning 60-slot tick array for the spacing
    /// boundary at or below `tick`.
    pub fn slot_offset(&self, tick: i32) -> (r: i32)
        requires
            self.wf(),
            tick >= i32::MIN + self.spec_tpa() + self.tick_spacing - 2,
        ensures
            r == spec_slot_offset(tick as int, self.tick_spacing),
            0 <= r < 60,
    {
        let s = self.tick_spacing as i32;
        let aligned = self.align_tick_to_spacing(tick);
        proof {
            lemma_floor_align_bounds(tick as int, s as int);
        }
        let start = self.get_array_start_index(aligned);
        proof {
            self.lemma_slot_offset_bounds(tick as int);
        }
        (((aligned - start) as u32) / (s as u32)) as i32
    }

    /// Absolute tick index stored in a given slot of the array starting at
    /// `start_index`: slots step by the spacing from the array start.
    pub fn slot_tick_index(&self, start_index: i32, slot: i32) -> (r: i32)
        requires
            self.wf(),
            0 <= slot < 60,
            start_index + slot * self.tick_spacing <= i32::MAX,
        ensures
            r == start_index + slot * self.tick_spacing,
    {
        proof {
            assert(0 <= slot * self.tick_spacing <= 59 * 65535) by (nonlinear_arith)
                requires
                    0 <= slot < 60,
                    1 <= self.tick_spacing <= 65535,
            ;
        }
        start_index + slot * (self.tick_spacing as i32)
    }

    /// The distance from an aligned tick to its array start is a non-negative
    /// multiple of the spacing smaller than sixty spacings, so the slot
    /// offset always lies in 0..=59.
    proof fn lemma_slot_offset_bounds(&self, tick: int)
        requires
            self.wf(),
        ensures
            0 <= spec_floor_align(tick, self.tick_spacing as int) - spec_floor_align(
                spec_floor_align(tick, self.tick_spacing as int),
                self.spec_tpa(),
            ) < self.spec_tpa(),
            0 <= spec_slot_offset(tick, self.tick_spacing) < 60,
    {
        let s = self.tick_spacing as int;
        let tpa = self.spec_tpa();
        let aligned = spec_floor_align(tick, s);
        let start = spec_floor_align(aligned, tpa);
        lemma_floor_align_bounds(aligned, tpa);
        let gap = aligned - start;
        assert(0 <= gap < tpa);
        // gap / s < 60 because gap <= 60 * s - 1.
        lemma_fundamental_div_mod(gap, s);
        lemma_mod_division_less_than_divisor(gap, s);
        assert(gap / s < 60) by {
            if gap / s >= 60 {
                assert((gap / s) * s >= 60 * s) by (nonlinear_arith)
                    requires
                        gap / s >= 60,
                        s >= 1,
                ;
            }
        }
        assert(gap / s >= 0) by {
            if gap / s < 0 {
                assert((gap / s) * s <= -s) by (nonlinear_arith)
                    requires
                        gap / s < 0,
                        s >= 1,
                ;
            }
        }
    }
}

/// Largest multiple of `step` at or below `tick`, computed with unsigned
/// division only: machine signed division truncates toward zero, which would
/// misplace negative ticks by one whole step.
fn floor_align(tick: i32, step: i32) -> (r: i32)
    requires
        step >= 1,
        tick >= i32::MIN + step - 1,
    ensures
        r == spec_floor_align(tick as int, step as int),
{
    if tick >= 0 {
        let q: u32 = (tick as u32) / (step as u32);
        proof {
            lemma_floor_align_bounds(tick as int, step as int);
        }
        (q * (step as u32)) as i32
    } else {
        let m: u64 = (-(tick as i64)) as u64;
        let q: u64 = (m + (step as u64) - 1) / (step as u64);
        proof {
            lemma_neg_floor_div(m as int, step as int);
            lemma_floor_align_bounds(tick as int, step as int);
            assert((-(q as int)) * (step as int) == -((q as int) * (step as int)))
                by (nonlinear_arith);
        }
        -((q * (step as u64)) as i64) as i32
    }
}

} // verus!
