use vstd::prelude::*;
use vstd::math::min;
use vstd::math::max;
use vstd::arithmetic::div_mod::lemma_fundamental_div_mod_converse;
use crate::indexer::TickArrayHelper;
use crate::indexer::spec_floor_align;
use crate::indexer::lemma_floor_align_bounds;
use crate::sorting::spec_strictly_sorted;

verus! {

/// Trade direction. Buying token 1 moves the tick down as the trade
/// executes; buying token 0 moves it up.
#[derive(Clone, Copy, Debug, PartialEq, Eq, Structural)]
pub enum SwapDirection {
    BuyT1,
    BuyT0,
}

/// Why a tick array is part of a swap plan: it lies between the current
/// price and the worst-case impact (core), or only between the current
/// price and the favorable extreme.
#[derive(Clone, Copy, Debug, PartialEq, Eq, Structural)]
pub enum TickArrayClass {
    Favorable,
    Core,
}

/// One planned tick array: its start index and its classification.
#[derive(Clone, Copy, Debug, PartialEq, Eq, Structural)]
pub struct PlanEntry {
    pub start_index: i32,
    pub class: TickArrayClass,
}

/// The one array just beyond the planned span on the impact side, or the
/// explicit outcome that no initialized array exists there.
#[derive(Clone, Copy, Debug, PartialEq, Eq, Structural)]
pub enum SurroundingArray {
    Found(i32),
    NoSurroundingArrayFound,
}

/// A resolved swap plan: the classified arrays in the order the trade
/// crosses them, and the surrounding array beyond the span.
pub struct SwapPlan {
    pub entries: Vec<PlanEntry>,
    pub surrounding: SurroundingArray,
}

/// The array starting at `s` covers `[s, s + tpa - 1]`; it intersects the
/// inclusive tick range `[lo, hi]`.
pub open spec fn spec_intersects(s: int, lo: int, hi: int, tpa: int) -> bool {
    s <= hi && s + tpa - 1 >= lo
}

/// Core classification: the array intersects the span between the current
/// price and the worst-case impact tick.
pub open spec fn spec_is_core(s: int, start_tick: int, tick_impact: int, tpa: int) -> bool {
    spec_intersects(s, min(start_tick, tick_impact), max(start_tick, tick_impact), tpa)
}

/// Favorable classification: the array intersects the span between the
/// current price and the favorable extreme but is not core (core takes
/// precedence when both match).
pub open spec fn spec_is_favorable(
    s: int,
    start_tick: int,
    tick_favorable: int,
    tick_impact: int,
    tpa: int,
) -> bool {
    spec_intersects(s, min(start_tick, tick_favorable), max(start_tick, tick_favorable), tpa)
        && !spec_is_core(s, start_tick, tick_impact, tpa)
}

/// Whether the sequence holds the value `s`.
pub open spec fn spec_seq_has(p: Seq<i32>, s: int) -> bool {
    exists|j: int| 0 <= j < p.len() && p[j] == s
}

/// Whether a candidate array survives filtering: it must be core or
/// favorable, and in strict mode (a populated set is supplied) it must be
/// marked initialized on-chain.
pub open spec fn spec_passes(
    s: int,
    start_tick: int,
    tick_favorable: int,
    tick_impact: int,
    tpa: int,
    populated: Option<Seq<i32>>,
) -> bool {
    (spec_is_core(s, start_tick, tick_impact, tpa) || spec_is_favorable(
        s,
        start_tick,
        tick_favorable,
        tick_impact,
        tpa,
    )) && (match populated {
        Option::Some(p) => spec_seq_has(p, s),
        Option::None => true,
    })
}

/// The first `count` candidate start indices `lo, lo + tpa, ...` that pass
/// filtering, in ascending order.
pub open spec fn spec_plan_prefix(
    lo: int,
    count: nat,
    start_tick: int,
    tick_favorable: int,
    tick_impact: int,
    tpa: int,
    populated: Option<Seq<i32>>,
) -> Seq<int>
    decreases count,
{
    if count == 0 {
        Seq::empty()
    } else {
        let rest = spec_plan_prefix(
            lo,
            (count - 1) as nat,
            start_tick,
            tick_favorable,
            tick_impact,
            tpa,
            populated,
        );
        let h = lo + (count - 1) * tpa;
        if spec_passes(h, start_tick, tick_favorable, tick_impact, tpa, populated) {
            rest.push(h)
        } else {
            rest
        }
    }
}

/// View of the optional populated set.
pub open spec fn spec_populated_view(populated: Option<&Vec<i32>>) -> Option<Seq<i32>> {
    match populated {
        Option::Some(p) => Option::Some(p@),
        Option::None => Option::None,
    }
}

/// The ascending filtered candidate list for one resolver call: every
/// array-start from the array of the lowest computed tick to the array of
/// the highest, kept if it passes classification and, in strict mode, the
/// populated check.
pub open spec fn spec_plan(
    start_tick: int,
    tick_favorable: int,
    tick_impact: int,
    tpa: int,
    populated: Option<Seq<i32>>,
) -> Seq<int> {
    let lo = spec_floor_align(min(tick_favorable, tick_impact), tpa);
    let hi = spec_floor_align(max(tick_favorable, tick_impact), tpa);
    spec_plan_prefix(
        lo,
        ((hi - lo) / tpa + 1) as nat,
        start_tick,
        tick_favorable,
        tick_impact,
        tpa,
        populated,
    )
}

/// Every element of a candidate plan passes filtering, lies on the
/// candidate grid, and the list is strictly increasing.
pub proof fn lemma_plan_prefix_props(
    lo: int,
    count: nat,
    start_tick: int,
    tick_favorable: int,
    tick_impact: int,
    tpa: int,
    populated: Option<Seq<i32>>,
)
    requires
        tpa > 0,
    ensures
        ({
            let s = spec_plan_prefix(
                lo,
                count,
                start_tick,
                tick_favorable,
                tick_impact,
                tpa,
                populated,
            );
            &&& forall|i: int, j: int| 0 <= i < j < s.len() ==> s[i] < s[j]
            &&& forall|i: int|
                0 <= i < s.len() ==> (spec_passes(
                    #[trigger] s[i],
                    start_tick,
                    tick_favorable,
                    tick_impact,
                    tpa,
                    populated,
                ) && lo <= s[i] <= lo + (count - 1) * tpa && (s[i] - lo) % tpa == 0)
            &&& forall|o: int|
                lo <= o <= lo + (count - 1) * tpa && (o - lo) % tpa == 0 && spec_passes(
                    o,
                    start_tick,
                    tick_favorable,
                    tick_impact,
                    tpa,
                    populated,
                ) ==> #[trigger] s.contains(o)
        }),
    decreases count,
{
    if count > 0 {
        lemma_plan_prefix_props(
            lo,
            (count - 1) as nat,
            start_tick,
            tick_favorable,
            tick_impact,
            tpa,
            populated,
        );
        let rest = spec_plan_prefix(
            lo,
            (count - 1) as nat,
            start_tick,
            tick_favorable,
            tick_impact,
            tpa,
            populated,
        );
        let h = lo + (count - 1) * tpa;
        let s = spec_plan_prefix(lo, count, start_tick, tick_favorable, tick_impact, tpa, populated);
        assert((h - lo) % tpa == 0) by {
            vstd::arithmetic::div_mod::lemma_mod_multiples_basic(count - 1, tpa);
        }
        let c1: int = (count - 1) as nat as int;
        assert(c1 == count - 1);
        assert forall|i: int| 0 <= i < rest.len() implies rest[i] < h by {
            assert(rest[i] <= lo + (c1 - 1) * tpa);
            assert((count - 2) * tpa < (count - 1) * tpa) by (nonlinear_arith)
                requires
                    tpa > 0,
            ;
        }
        if spec_passes(h, start_tick, tick_favorable, tick_impact, tpa, populated) {
            assert(s == rest.push(h));
            assert(s[s.len() - 1] == h);
        }
        assert forall|o: int|
            lo <= o <= lo + (count - 1) * tpa && (o - lo) % tpa == 0 && spec_passes(
                o,
                start_tick,
                tick_favorable,
                tick_impact,
                tpa,
                populated,
            ) implies #[trigger] s.contains(o) by {
            let m = o - lo;
            vstd::arithmetic::div_mod::lemma_fundamental_div_mod(m, tpa);
            let q = m / tpa;
            assert(o == lo + tpa * q);
            if o < h {
                assert(q < count - 1) by (nonlinear_arith)
                    requires
                        tpa > 0,
                        lo + tpa * q < lo + (count - 1) * tpa,
                ;
                assert(q >= 0) by (nonlinear_arith)
                    requires
                        tpa > 0,
                        lo + tpa * q >= lo,
                ;
                assert(o <= lo + (c1 - 1) * tpa) by (nonlinear_arith)
                    requires
                        o == lo + tpa * q,
                        q <= c1 - 1,
                        tpa > 0,
                ;
                assert(rest.contains(o));
                let jj = choose|jj: int| 0 <= jj < rest.len() && rest[jj] == o;
                assert(s[jj] == o);
            } else {
                assert(o == h);
                assert(s[s.len() - 1] == h);
            }
        }
        assert forall|i: int|
            0 <= i < s.len() implies (spec_passes(
            #[trigger] s[i],
            start_tick,
            tick_favorable,
            tick_impact,
            tpa,
            populated,
        ) && lo <= s[i] <= lo + (count - 1) * tpa && (s[i] - lo) % tpa == 0) by {
            if i < rest.len() {
                assert(s[i] == rest[i]);
                assert(lo + (count - 2) * tpa <= lo + (count - 1) * tpa) by (nonlinear_arith)
                    requires
                        tpa > 0,
                ;
            }
        }
    }
}

/// Reverses the entry order.
fn reverse_entries(v: Vec<PlanEntry>) -> (r: Vec<PlanEntry>)
    ensures
        r@.len() == v@.len(),
        forall|i: int| 0 <= i < v@.len() ==> r@[i] == v@[v@.len() - 1 - i],
{
    let mut out: Vec<PlanEntry> = Vec::new();
    let mut k: usize = v.len();
    while k > 0
        invariant
            k <= v@.len(),
            out@.len() == v@.len() - k,
            forall|i: int| 0 <= i < out@.len() ==> out@[i] == v@[v@.len() - 1 - i],
        decreases k,
    {
        k = k - 1;
        out.push(v[k]);
    }
    out
}

impl TickArrayHelper {
    /// Computes the ordered, classified list of tick arrays a trade must
    /// touch, between the favorable extreme and the worst-case impact of
    /// the planned swap, plus the one surrounding array beyond the span on
    /// the impact side.
    ///
    /// `tick_favorable` and `tick_impact` are the ticks of the perturbed
    /// prices; the direction fixes which side of `start_tick` each lies on.
    /// With `populated == None` (blind mode) every candidate in the span is
    /// assumed to exist and the surrounding array is computed
    /// arithmetically; with a sorted populated set (strict mode) candidates
    /// are kept only if initialized and the surrounding array is the
    /// nearest initialized one beyond the span, with an explicit
    /// no-surrounding outcome when none exists.
    ///
    /// The entry order is part of the contract: ascending for `BuyT0`,
    /// descending for `BuyT1`, mirroring the order the trade crosses the
    /// arrays as the price moves.
    pub fn resolve_swap_arrays(
        &self,
        start_tick: i32,
        tick_favorable: i32,
        tick_impact: i32,
        direction: SwapDirection,
        populated: Option<&Vec<i32>>,
    ) -> (r: SwapPlan)
        requires
            self.wf(),
            direction is BuyT1 ==> tick_impact <= start_tick <= tick_favorable,
            direction is BuyT0 ==> tick_favorable <= start_tick <= tick_impact,
            min(tick_favorable as int, tick_impact as int) >= i32::MIN + 2 * self.spec_tpa(),
            max(tick_favorable as int, tick_impact as int) <= i32::MAX - self.spec_tpa(),
            populated matches Option::Some(p) ==> spec_strictly_sorted(p@),
        ensures
            ({
                let plan = spec_plan(
                    start_tick as int,
                    tick_favorable as int,
                    tick_impact as int,
                    self.spec_tpa(),
                    spec_populated_view(populated),
                );
                &&& r.entries@.len() == plan.len()
                &&& (direction is BuyT0 ==> forall|i: int|
                    0 <= i < plan.len() ==> r.entries@[i].start_index == plan[i])
                &&& (direction is BuyT1 ==> forall|i: int|
                    0 <= i < plan.len() ==> r.entries@[i].start_index == plan[plan.len() - 1 - i])
            }),
            forall|i: int|
                0 <= i < r.entries@.len() ==> ((#[trigger] r.entries@[i].class is Core)
                    == spec_is_core(
                    r.entries@[i].start_index as int,
                    start_tick as int,
                    tick_impact as int,
                    self.spec_tpa(),
                )),
            direction is BuyT0 ==> forall|i: int, j: int|
                0 <= i < j < r.entries@.len() ==> r.entries@[i].start_index
                    < r.entries@[j].start_index,
            direction is BuyT1 ==> forall|i: int, j: int|
                0 <= i < j < r.entries@.len() ==> r.entries@[i].start_index
                    > r.entries@[j].start_index,
            ({
                let tpa = self.spec_tpa();
                let lo = spec_floor_align(min(tick_favorable as int, tick_impact as int), tpa);
                let hi = spec_floor_align(max(tick_favorable as int, tick_impact as int), tpa);
                let min_tick = min(tick_favorable as int, tick_impact as int);
                let max_tick = max(tick_favorable as int, tick_impact as int);
                match populated {
                    Option::None => r.surrounding == (match direction {
                        SwapDirection::BuyT1 => SurroundingArray::Found((lo - tpa) as i32),
                        SwapDirection::BuyT0 => SurroundingArray::Found((hi + tpa) as i32),
                    }),
                    Option::Some(p) => (match direction {
                        SwapDirection::BuyT1 => (match r.surrounding {
                            SurroundingArray::Found(s) => spec_seq_has(p@, s as int) && s
                                <= min_tick - tpa && (forall|j: int|
                                0 <= j < p@.len() && p@[j] <= min_tick - tpa ==> p@[j] <= s),
                            SurroundingArray::NoSurroundingArrayFound => forall|j: int|
                                0 <= j < p@.len() ==> p@[j] > min_tick - tpa,
                        }),
                        SwapDirection::BuyT0 => (match r.surrounding {
                            SurroundingArray::Found(s) => spec_seq_has(p@, s as int) && s
                                > max_tick && (forall|j: int|
                                0 <= j < p@.len() && p@[j] > max_tick ==> p@[j] >= s),
                            SurroundingArray::NoSurroundingArrayFound => forall|j: int|
                                0 <= j < p@.len() ==> p@[j] <= max_tick,
                        }),
                    }),
                }
            }),
    {
        let tpa = self.tick_indices_per_array();
        let min_tick: i32 = if tick_favorable <= tick_impact {
            tick_favorable
        } else {
            tick_impact
        };
        let max_tick: i32 = if tick_favorable <= tick_impact {
            tick_impact
        } else {
            tick_favorable
        };
        let lo_arr = self.get_array_start_index(min_tick);
        let hi_arr = self.get_array_start_index(max_tick);
        proof {
            lemma_floor_align_bounds(min_tick as int, self.spec_tpa());
            lemma_floor_align_bounds(max_tick as int, self.spec_tpa());
            vstd::arithmetic::div_mod::lemma_div_is_ordered(
                min_tick as int,
                max_tick as int,
                self.spec_tpa(),
            );
            assert(lo_arr <= hi_arr) by {
                let t = self.spec_tpa();
                assert((min_tick as int / t) * t <= (max_tick as int / t) * t)
                    by (nonlinear_arith)
                    requires
                        min_tick as int / t <= max_tick as int / t,
                        t > 0,
                ;
            }
        }
        let core_lo: i32 = if start_tick <= tick_impact {
            start_tick
        } else {
            tick_impact
        };
        let core_hi: i32 = if start_tick <= tick_impact {
            tick_impact
        } else {
            start_tick
        };
        let fav_lo: i32 = if start_tick <= tick_favorable {
            start_tick
        } else {
            tick_favorable
        };
        let fav_hi: i32 = if start_tick <= tick_favorable {
            tick_favorable
        } else {
            start_tick
        };
        let ghost gtpa: int = self.spec_tpa();
        let ghost glo: int = lo_arr as int;
        let ghost gpop: Option<Seq<i32>> = spec_populated_view(populated);

        let mut entries: Vec<PlanEntry> = Vec::new();
        let mut cur: i32 = lo_arr;
        let ghost mut j: nat = 0nat;
        while cur <= hi_arr
            invariant
                self.wf(),
                gtpa == self.spec_tpa(),
                tpa == gtpa,
                glo == lo_arr,
                lo_arr <= hi_arr,
                hi_arr as int + gtpa <= i32::MAX,
                core_lo == min(start_tick as int, tick_impact as int),
                core_hi == max(start_tick as int, tick_impact as int),
                fav_lo == min(start_tick as int, tick_favorable as int),
                fav_hi == max(start_tick as int, tick_favorable as int),
                gpop == spec_populated_view(populated),
                populated matches Option::Some(p) ==> spec_strictly_sorted(p@),
                cur as int == glo + j * gtpa,
                cur as int <= hi_arr + gtpa,
                j >= 1 ==> glo + (j - 1) * gtpa <= hi_arr as int,
                entries@.len() == spec_plan_prefix(
                    glo,
                    j,
                    start_tick as int,
                    tick_favorable as int,
                    tick_impact as int,
                    gtpa,
                    gpop,
                ).len(),
                forall|i: int|
                    0 <= i < entries@.len() ==> #[trigger] entries@[i].start_index
                        == spec_plan_prefix(
                        glo,
                        j,
                        start_tick as int,
                        tick_favorable as int,
                        tick_impact as int,
                        gtpa,
                        gpop,
                    )[i],
                forall|i: int|
                    0 <= i < entries@.len() ==> ((#[trigger] entries@[i].class is Core)
                        == spec_is_core(
                        entries@[i].start_index as int,
                        start_tick as int,
                        tick_impact as int,
                        gtpa,
                    )),
            decreases hi_arr as int + gtpa - cur as int,
        {
            let in_core = cur <= core_hi && cur + (tpa - 1) >= core_lo;
            let in_fav = cur <= fav_hi && cur + (tpa - 1) >= fav_lo;
            let mut keep = in_core || in_fav;
            if keep {
                match populated {
                    Option::Some(p) => {
                        keep = contains_index(p, cur);
                    },
                    Option::None => {},
                }
            }
            proof {
                assert(in_core == spec_is_core(
                    cur as int,
                    start_tick as int,
                    tick_impact as int,
                    gtpa,
                ));
                assert(keep == spec_passes(
                    cur as int,
                    start_tick as int,
                    tick_favorable as int,
                    tick_impact as int,
                    gtpa,
                    gpop,
                ));
            }
            if keep {
                let class = if in_core {
                    TickArrayClass::Core
                } else {
                    TickArrayClass::Favorable
                };
                entries.push(PlanEntry { start_index: cur, class });
            }
            proof {
                assert((j + 1) * gtpa == j * gtpa + gtpa) by (nonlinear_arith);
                j = j + 1;
            }
            cur = cur + tpa;
        }
        proof {
            assert(j >= 1) by {
                if j == 0 {
                    assert(cur as int == glo);
                }
            }
            assert(glo + (j - 1) * gtpa <= hi_arr as int);
            assert(hi_arr < cur);
            let rem = hi_arr as int - glo - (j - 1) * gtpa;
            assert(0 <= rem < gtpa) by {
                assert(glo + j * gtpa - (glo + (j - 1) * gtpa) == gtpa) by (nonlinear_arith);
            }
            lemma_fundamental_div_mod_converse(hi_arr as int - glo, gtpa, j as int - 1, rem);
            assert((hi_arr as int - glo) / gtpa + 1 == j as int);
            lemma_plan_prefix_props(
                glo,
                j,
                start_tick as int,
                tick_favorable as int,
                tick_impact as int,
                gtpa,
                gpop,
            );
        }

        let ordered = match direction {
            SwapDirection::BuyT1 => reverse_entries(entries),
            SwapDirection::BuyT0 => entries,
        };

        let surrounding = match populated {
            Option::None => match direction {
                SwapDirection::BuyT1 => SurroundingArray::Found(lo_arr - tpa),
                SwapDirection::BuyT0 => SurroundingArray::Found(hi_arr + tpa),
            },
            Option::Some(p) => match direction {
                SwapDirection::BuyT1 => find_last_at_most(p, min_tick - tpa),
                SwapDirection::BuyT0 => find_first_above(p, max_tick),
            },
        };
        SwapPlan { entries: ordered, surrounding }
    }
}

/// Linear membership scan for start indices.
fn contains_index(v: &Vec<i32>, x: i32) -> (r: bool)
    ensures
        r == spec_seq_has(v@, x as int),
{
    let mut k: usize = 0;
    while k < v.len()
        invariant
            k <= v@.len(),
            forall|j: int| 0 <= j < k ==> v@[j] != x,
        decreases v@.len() - k,
    {
        if v[k] == x {
            proof {
                assert(v@[k as int] == x);
            }
            return true;
        }
        k = k + 1;
    }
    false
}

/// The greatest element at most `limit` in an ascending list, if any.
fn find_last_at_most(v: &Vec<i32>, limit: i32) -> (r: SurroundingArray)
    requires
        spec_strictly_sorted(v@),
    ensures
        match r {
            SurroundingArray::Found(s) => spec_seq_has(v@, s as int) && s <= limit && (forall|
                j: int,
            |
                0 <= j < v@.len() && v@[j] <= limit ==> v@[j] <= s),
            SurroundingArray::NoSurroundingArrayFound => forall|j: int|
                0 <= j < v@.len() ==> v@[j] > limit,
        },
{
    let mut found: SurroundingArray = SurroundingArray::NoSurroundingArrayFound;
    let mut k: usize = 0;
    while k < v.len()
        invariant
            spec_strictly_sorted(v@),
            k <= v@.len(),
            match found {
                SurroundingArray::Found(s) => spec_seq_has(v@, s as int) && s <= limit && (exists|
                    idx: int,
                |
                    0 <= idx < k && v@[idx] == s) && (forall|j: int|
                    0 <= j < k && v@[j] <= limit ==> v@[j] <= s),
                SurroundingArray::NoSurroundingArrayFound => forall|j: int|
                    0 <= j < k ==> v@[j] > limit,
            },
        decreases v@.len() - k,
    {
        if v[k] <= limit {
            let s0 = v[k];
            found = SurroundingArray::Found(s0);
            proof {
                assert(v@[k as int] == s0);
            }
        }
        k = k + 1;
    }
    found
}

/// The least element above `limit` in an ascending list, if any.
fn find_first_above(v: &Vec<i32>, limit: i32) -> (r: SurroundingArray)
    requires
        spec_strictly_sorted(v@),
    ensures
        match r {
            SurroundingArray::Found(s) => spec_seq_has(v@, s as int) && s > limit && (forall|
                j: int,
            |
                0 <= j < v@.len() && v@[j] > limit ==> v@[j] >= s),
            SurroundingArray::NoSurroundingArrayFound => forall|j: int|
                0 <= j < v@.len() ==> v@[j] <= limit,
        },
{
    let mut k: usize = 0;
    while k < v.len()
        invariant
            spec_strictly_sorted(v@),
            k <= v@.len(),
            forall|j: int| 0 <= j < k ==> v@[j] <= limit,
        decreases v@.len() - k,
    {
        if v[k] > limit {
            proof {
                let ghost s0: i32 = v@[k as int];
                assert forall|j: int| 0 <= j < v@.len() && v@[j] > limit implies v@[j] >= s0 by {}
            }
            return SurroundingArray::Found(v[k]);
        }
        k = k + 1;
    }
    SurroundingArray::NoSurroundingArrayFound
}

} // verus!
