use vstd::prelude::*;

verus! {

broadcast use vstd::seq_lib::group_to_multiset_ensures;

/// Tick boundaries ordered by tick index.
pub open spec fn spec_sorted_by_tick(s: Seq<(i32, i128)>) -> bool {
    forall|i: int, j: int| 0 <= i < j < s.len() ==> (#[trigger] s[i]).0 <= (#[trigger] s[j]).0
}

/// Sum of the first `n` signed liquidity deltas.
pub open spec fn spec_prefix_sum(s: Seq<(i32, i128)>, n: int) -> int
    decreases n,
{
    if n <= 0 {
        0
    } else {
        spec_prefix_sum(s, n - 1) + s[n - 1].1
    }
}

/// Every partial sum stays within the accumulator type, a machine limit on
/// the caller's deltas.
pub open spec fn spec_sums_bounded(s: Seq<(i32, i128)>) -> bool {
    forall|n: int| 0 <= n <= s.len() ==> i128::MIN <= #[trigger] spec_prefix_sum(s, n) <= i128::MAX
}

/// Largest cumulative liquidity reached over the first `n` boundaries,
/// never below zero.
pub open spec fn spec_max_cumulative(s: Seq<(i32, i128)>, n: int) -> int
    decreases n,
{
    if n <= 0 {
        0
    } else {
        let rest = spec_max_cumulative(s, n - 1);
        let ps = spec_prefix_sum(s, n);
        if ps > rest {
            ps
        } else {
            rest
        }
    }
}

/// One contiguous stretch of the tick line with constant active liquidity:
/// between two adjacent initialized boundaries, with the cumulative
/// liquidity in force there.
#[derive(Clone, Copy, Debug, PartialEq, Eq, Structural)]
pub struct LiquiditySegment {
    pub tick_lower: i32,
    pub tick_upper: i32,
    pub cumulative: i128,
}

/// The segments between adjacent boundaries among the first `n`, kept when
/// their cumulative liquidity is positive.
pub open spec fn spec_segments(s: Seq<(i32, i128)>, n: int) -> Seq<LiquiditySegment>
    decreases n,
{
    if n <= 1 {
        Seq::empty()
    } else {
        let rest = spec_segments(s, n - 1);
        let cum = spec_prefix_sum(s, n - 1);
        if cum > 0 {
            rest.push(
                LiquiditySegment {
                    tick_lower: s[n - 2].0,
                    tick_upper: (s[n - 1].0 - 1) as i32,
                    cumulative: cum as i128,
                },
            )
        } else {
            rest
        }
    }
}

/// Sorts tick boundaries by tick index, keeping every boundary with its
/// delta and multiplicity.
pub fn sort_tick_deltas(v: &Vec<(i32, i128)>) -> (r: Vec<(i32, i128)>)
    ensures
        spec_sorted_by_tick(r@),
        r@.to_multiset() == v@.to_multiset(),
        r@.len() == v@.len(),
{
    let mut out: Vec<(i32, i128)> = Vec::new();
    let mut k: usize = 0;
    while k < v.len()
        invariant
            k <= v@.len(),
            spec_sorted_by_tick(out@),
            out@.to_multiset() == v@.take(k as int).to_multiset(),
            out@.len() == k,
        decreases v@.len() - k,
    {
        let x = v[k];
        let mut idx: usize = 0;
        while idx < out.len() && out[idx].0 <= x.0
            invariant
                idx <= out@.len(),
                forall|i: int| 0 <= i < idx ==> (#[trigger] out@[i]).0 <= x.0,
            decreases out@.len() - idx,
        {
            idx = idx + 1;
        }
        let ghost prev_out = out@;
        out.insert(idx, x);
        proof {
            prev_out.insert_ensures(idx as int, x);
            assert forall|i: int, j: int|
                0 <= i < j < out@.len() implies (#[trigger] out@[i]).0 <= (
            #[trigger] out@[j]).0 by {
                if j < idx {
                } else if i > idx {
                } else if i == idx && j > idx {
                    assert(out@[j] == prev_out[j - 1]);
                    assert(prev_out[idx as int].0 > x.0);
                    assert(prev_out[idx as int].0 <= prev_out[j - 1].0);
                } else if j == idx {
                    assert(out@[i] == prev_out[i]);
                } else {
                    assert(out@[i] == prev_out[i]);
                    assert(out@[j] == prev_out[j - 1]);
                    if idx < j - 1 {
                        assert(prev_out[idx as int].0 <= prev_out[j - 1].0);
                        assert(prev_out[idx as int].0 > x.0);
                    } else {
                        assert(j - 1 == idx);
                        assert(prev_out[j - 1].0 > x.0);
                    }
                }
            }
            v@.lemma_take_succ_push(k as int);
        }
        k = k + 1;
    }
    proof {
        v@.lemma_take_len();
    }
    out
}

/// Largest cumulative liquidity over all boundaries: the peak of the
/// running sum of deltas, floored at zero.
pub fn max_cumulative_liquidity(ticks: &Vec<(i32, i128)>) -> (r: i128)
    requires
        spec_sums_bounded(ticks@),
    ensures
        r == spec_max_cumulative(ticks@, ticks@.len() as int),
        r >= 0,
{
    let mut max_liquidity: i128 = 0;
    let mut temp_liquidity: i128 = 0;
    let mut k: usize = 0;
    while k < ticks.len()
        invariant
            spec_sums_bounded(ticks@),
            k <= ticks@.len(),
            temp_liquidity == spec_prefix_sum(ticks@, k as int),
            max_liquidity == spec_max_cumulative(ticks@, k as int),
            max_liquidity >= 0,
        decreases ticks@.len() - k,
    {
        proof {
            assert(i128::MIN <= spec_prefix_sum(ticks@, k as int + 1) <= i128::MAX);
        }
        temp_liquidity = temp_liquidity + ticks[k].1;
        if temp_liquidity > max_liquidity {
            max_liquidity = temp_liquidity;
        }
        k = k + 1;
    }
    max_liquidity
}

/// Computes the displayable liquidity ranges from sorted boundaries: one
/// segment per adjacent pair with positive cumulative liquidity, covering
/// the ticks from the lower boundary up to just below the upper one.
pub fn liquidity_segments(ticks: &Vec<(i32, i128)>) -> (r: Vec<LiquiditySegment>)
    requires
        spec_sums_bounded(ticks@),
        forall|i: int| 0 <= i < ticks@.len() ==> (#[trigger] ticks@[i]).0 > i32::MIN,
    ensures
        r@ == spec_segments(ticks@, ticks@.len() as int),
{
    let mut out: Vec<LiquiditySegment> = Vec::new();
    if ticks.len() == 0 {
        return out;
    }
    let mut cumulative: i128 = ticks[0].1;
    let mut k: usize = 1;
    proof {
        assert(spec_prefix_sum(ticks@, 0) == 0);
        assert(spec_prefix_sum(ticks@, 1) == ticks@[0].1);
        assert(i128::MIN <= spec_prefix_sum(ticks@, 1) <= i128::MAX);
    }
    while k < ticks.len()
        invariant
            spec_sums_bounded(ticks@),
            forall|i: int| 0 <= i < ticks@.len() ==> (#[trigger] ticks@[i]).0 > i32::MIN,
            1 <= k <= ticks@.len(),
            cumulative == spec_prefix_sum(ticks@, k as int),
            out@ == spec_segments(ticks@, k as int),
        decreases ticks@.len() - k,
    {
        if cumulative > 0 {
            let seg = LiquiditySegment {
                tick_lower: ticks[k - 1].0,
                tick_upper: ticks[k].0 - 1,
                cumulative,
            };
            out.push(seg);
        }
        proof {
            assert(i128::MIN <= spec_prefix_sum(ticks@, k as int + 1) <= i128::MAX);
        }
        cumulative = cumulative + ticks[k].1;
        k = k + 1;
    }
    out
}

/// The initialized boundaries among the first `n` slots of one record:
/// those with nonzero gross liquidity, as (tick, net delta) pairs in slot
/// order.
pub open spec fn spec_initialized_ticks(ticks: Seq<crate::states::TickState>, n: int) -> Seq<
    (i32, i128),
>
    decreases n,
{
    if n <= 0 {
        Seq::empty()
    } else {
        let rest = spec_initialized_ticks(ticks, n - 1);
        if ticks[n - 1].liquidity_gross != 0 {
            rest.push((ticks[n - 1].tick, ticks[n - 1].liquidity_net))
        } else {
            rest
        }
    }
}

/// All initialized boundaries of a list of records, record by record in
/// the given order.
pub open spec fn spec_all_initialized(arrays: Seq<crate::states::TickArrayState>, n: int) -> Seq<
    (i32, i128),
>
    decreases n,
{
    if n <= 0 {
        Seq::empty()
    } else {
        spec_all_initialized(arrays, n - 1) + spec_initialized_ticks(arrays[n - 1].ticks@, 60)
    }
}

/// Extracts every initialized boundary from the decoded records: a slot
/// counts when its gross liquidity is nonzero, and contributes its tick
/// and signed net delta.
pub fn collect_initialized_ticks(arrays: &Vec<crate::states::TickArrayState>) -> (r: Vec<
    (i32, i128),
>)
    ensures
        r@ == spec_all_initialized(arrays@, arrays@.len() as int),
{
    let mut out: Vec<(i32, i128)> = Vec::new();
    let mut a: usize = 0;
    while a < arrays.len()
        invariant
            a <= arrays@.len(),
            out@ == spec_all_initialized(arrays@, a as int),
        decreases arrays@.len() - a,
    {
        let ghost before: Seq<(i32, i128)> = out@;
        let mut slot: usize = 0;
        while slot < 60
            invariant
                a < arrays@.len(),
                slot <= 60,
                out@ == before + spec_initialized_ticks(arrays@[a as int].ticks@, slot as int),
            decreases 60 - slot,
        {
            let ts = arrays[a].ticks[slot];
            proof {
                assert(ts == arrays@[a as int].ticks@[slot as int]);
            }
            if ts.liquidity_gross != 0 {
                out.push((ts.tick, ts.liquidity_net));
            }
            proof {
                assert(out@ =~= before + spec_initialized_ticks(
                    arrays@[a as int].ticks@,
                    slot as int + 1,
                ));
            }
            slot = slot + 1;
        }
        a = a + 1;
    }
    out
}

/// The decimal digit character for `d`.
pub open spec fn spec_digit_char(d: int) -> char {
    if d == 0 {
        '0'
    } else if d == 1 {
        '1'
    } else if d == 2 {
        '2'
    } else if d == 3 {
        '3'
    } else if d == 4 {
        '4'
    } else if d == 5 {
        '5'
    } else if d == 6 {
        '6'
    } else if d == 7 {
        '7'
    } else if d == 8 {
        '8'
    } else {
        '9'
    }
}

/// Decimal digits of `n`, most significant first, no leading zeros except
/// for `n == 0` itself.
pub open spec fn spec_digits(n: nat) -> Seq<char>
    decreases n,
{
    if n < 10 {
        seq![spec_digit_char(n as int)]
    } else {
        spec_digits(n / 10).push(spec_digit_char((n % 10) as int))
    }
}

/// Exactly two decimal digits, with a leading zero where needed.
pub open spec fn spec_two_digits(c: nat) -> Seq<char> {
    seq![spec_digit_char((c / 10) as int), spec_digit_char((c % 10) as int)]
}

/// `n / div` with two decimal places, rounded half up, then the unit
/// suffix: the shape `12.34T`.
pub open spec fn spec_scaled(n: nat, div: nat, suffix: Seq<char>) -> Seq<char>
    recommends
        div >= 2,
{
    let q = n / div;
    let rem = n % div;
    let cents = (rem * 100 + div / 2) / div;
    if cents >= 100 {
        spec_digits((q + 1) as nat) + seq!['.'] + spec_two_digits((cents - 100) as nat) + suffix
    } else {
        spec_digits(q) + seq!['.'] + spec_two_digits(cents) + suffix
    }
}

/// Human-readable liquidity: trillions, billions, millions and thousands
/// are scaled to two decimals with a unit letter; smaller values print
/// plainly.
pub open spec fn spec_format_liquidity(n: nat) -> Seq<char> {
    if n >= 1000000000000 {
        spec_scaled(n, 1000000000000, seq!['T'])
    } else if n >= 1000000000 {
        spec_scaled(n, 1000000000, seq!['B'])
    } else if n >= 1000000 {
        spec_scaled(n, 1000000, seq!['M'])
    } else if n >= 1000 {
        spec_scaled(n, 1000, seq!['K'])
    } else {
        spec_digits(n)
    }
}

/// Appends one decimal digit character.
fn push_digit(s: &mut String, d: u128)
    requires
        d < 10,
    ensures
        final(s)@ == old(s)@ + seq![spec_digit_char(d as int)],
{
    if d == 0 {
        proof {
            reveal_strlit("0");
            assert("0"@ =~= seq![spec_digit_char(0int)]);
        }
        s.append("0");
    } else if d == 1 {
        proof {
            reveal_strlit("1");
            assert("1"@ =~= seq![spec_digit_char(1int)]);
        }
        s.append("1");
    } else if d == 2 {
        proof {
            reveal_strlit("2");
            assert("2"@ =~= seq![spec_digit_char(2int)]);
        }
        s.append("2");
    } else if d == 3 {
        proof {
            reveal_strlit("3");
            assert("3"@ =~= seq![spec_digit_char(3int)]);
        }
        s.append("3");
    } else if d == 4 {
        proof {
            reveal_strlit("4");
            assert("4"@ =~= seq![spec_digit_char(4int)]);
        }
        s.append("4");
    } else if d == 5 {
        proof {
            reveal_strlit("5");
            assert("5"@ =~= seq![spec_digit_char(5int)]);
        }
        s.append("5");
    } else if d == 6 {
        proof {
            reveal_strlit("6");
            assert("6"@ =~= seq![spec_digit_char(6int)]);
        }
        s.append("6");
    } else if d == 7 {
        proof {
            reveal_strlit("7");
            assert("7"@ =~= seq![spec_digit_char(7int)]);
        }
        s.append("7");
    } else if d == 8 {
        proof {
            reveal_strlit("8");
            assert("8"@ =~= seq![spec_digit_char(8int)]);
        }
        s.append("8");
    } else {
        proof {
            reveal_strlit("9");
            assert("9"@ =~= seq![spec_digit_char(9int)]);
        }
        s.append("9");
    }
}

/// Appends the decimal digits of `n`.
fn push_digits(s: &mut String, n: u128)
    ensures
        final(s)@ == old(s)@ + spec_digits(n as nat),
    decreases n,
{
    if n >= 10 {
        proof {
            assert(n / 10 < n) by (nonlinear_arith)
                requires
                    n >= 10,
            ;
        }
        push_digits(s, n / 10);
        push_digit(s, n % 10);
        proof {
            assert(old(s)@ + spec_digits((n / 10) as nat) + seq![
                spec_digit_char((n % 10) as int),
            ] =~= old(s)@ + spec_digits(n as nat));
        }
    } else {
        push_digit(s, n);
    }
}

/// Appends exactly two decimal digits.
fn push_two_digits(s: &mut String, c: u128)
    requires
        c < 100,
    ensures
        final(s)@ == old(s)@ + spec_two_digits(c as nat),
{
    push_digit(s, c / 10);
    push_digit(s, c % 10);
    proof {
        assert(old(s)@ + seq![spec_digit_char((c / 10) as int)] + seq![
            spec_digit_char((c % 10) as int),
        ] =~= old(s)@ + spec_two_digits(c as nat));
    }
}

/// Appends `n / div` with two rounded decimals and the unit suffix.
fn push_scaled(s: &mut String, n: u128, div: u128, suffix: &str)
    requires
        2 <= div <= 1000000000000,
    ensures
        final(s)@ == old(s)@ + spec_scaled(n as nat, div as nat, suffix@),
{
    let q = n / div;
    let rem = n % div;
    let cents = (rem * 100 + div / 2) / div;
    proof {
        crate::bitmap::lemma_div_range(
            rem as int * 100 + div as int / 2,
            div as int,
            101,
        );
        assert(cents <= 100);
    }
    proof {
        reveal_strlit(".");
        assert("."@ =~= seq!['.']);
        vstd::arithmetic::div_mod::lemma_fundamental_div_mod(n as int, div as int);
        assert(2 * (q as int) <= n as int) by (nonlinear_arith)
            requires
                n as int == div as int * (q as int) + n as int % div as int,
                n as int % div as int >= 0,
                div as int >= 2,
                q as int >= 0,
        ;
    }
    if cents >= 100 {
        push_digits(s, q + 1);
        s.append(".");
        push_two_digits(s, cents - 100);
        s.append(suffix);
        proof {
            assert(old(s)@ + spec_digits((q + 1) as nat) + seq!['.'] + spec_two_digits(
                (cents - 100) as nat,
            ) + suffix@ =~= old(s)@ + spec_scaled(n as nat, div as nat, suffix@));
        }
    } else {
        push_digits(s, q);
        s.append(".");
        push_two_digits(s, cents);
        s.append(suffix);
        proof {
            assert(old(s)@ + spec_digits(q as nat) + seq!['.'] + spec_two_digits(cents as nat)
                + suffix@ =~= old(s)@ + spec_scaled(n as nat, div as nat, suffix@));
        }
    }
}

/// Formats a liquidity amount for display: scaled to two decimals with a
/// unit letter from thousands upward, plain digits below that.
pub fn format_liquidity(liquidity: u128) -> (r: String)
    ensures
        r@ == spec_format_liquidity(liquidity as nat),
{
    let mut s = String::new();
    if liquidity >= 1000000000000 {
        proof {
            reveal_strlit("T");
            assert("T"@ =~= seq!['T']);
        }
        push_scaled(&mut s, liquidity, 1000000000000, "T");
    } else if liquidity >= 1000000000 {
        proof {
            reveal_strlit("B");
            assert("B"@ =~= seq!['B']);
        }
        push_scaled(&mut s, liquidity, 1000000000, "B");
    } else if liquidity >= 1000000 {
        proof {
            reveal_strlit("M");
            assert("M"@ =~= seq!['M']);
        }
        push_scaled(&mut s, liquidity, 1000000, "M");
    } else if liquidity >= 1000 {
        proof {
            reveal_strlit("K");
            assert("K"@ =~= seq!['K']);
        }
        push_scaled(&mut s, liquidity, 1000, "K");
    } else {
        push_digits(&mut s, liquidity);
    }
    proof {
        assert(Seq::<char>::empty() + spec_format_liquidity(liquidity as nat)
            =~= spec_format_liquidity(liquidity as nat));
    }
    s
}

} // verus!
