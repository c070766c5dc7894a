use vstd::prelude::*;

verus! {

broadcast use vstd::seq_lib::group_to_multiset_ensures;

/// Non-decreasing order.
pub open spec fn spec_sorted(s: Seq<i32>) -> bool {
    forall|i: int, j: int| 0 <= i < j < s.len() ==> s[i] <= s[j]
}

/// Strictly increasing order: sorted with no duplicates.
pub open spec fn spec_strictly_sorted(s: Seq<i32>) -> bool {
    forall|i: int, j: int| 0 <= i < j < s.len() ==> s[i] < s[j]
}

/// Sorts start indices into non-decreasing order, keeping exactly the same
/// elements with their multiplicities.
pub fn sort_start_indices(v: &Vec<i32>) -> (r: Vec<i32>)
    ensures
        spec_sorted(r@),
        r@.to_multiset() == v@.to_multiset(),
        forall|x: i32| r@.contains(x) <==> v@.contains(x),
{
    let mut out: Vec<i32> = Vec::new();
    let mut k: usize = 0;
    while k < v.len()
        invariant
            k <= v@.len(),
            spec_sorted(out@),
            out@.to_multiset() == v@.take(k as int).to_multiset(),
        decreases v@.len() - k,
    {
        let x = v[k];
        let mut idx: usize = 0;
        while idx < out.len() && out[idx] <= x
            invariant
                idx <= out@.len(),
                forall|i: int| 0 <= i < idx ==> out@[i] <= x,
            decreases out@.len() - idx,
        {
            idx = idx + 1;
        }
        let ghost prev_out = out@;
        out.insert(idx, x);
        proof {
            prev_out.insert_ensures(idx as int, x);
            assert forall|i: int, j: int| 0 <= i < j < out@.len() implies out@[i] <= out@[j] by {
                if j < idx {
                } else if i > idx {
                } else if i == idx && j > idx {
                    assert(out@[j] == prev_out[j - 1]);
                    assert(prev_out[idx as int] > x);
                    assert(prev_out[idx as int] <= prev_out[j - 1]);
                } else if j == idx {
                    assert(out@[i] == prev_out[i]);
                } else {
                    // i < idx < j
                    assert(out@[i] == prev_out[i]);
                    assert(out@[j] == prev_out[j - 1]);
                    if idx < j - 1 {
                        assert(prev_out[idx as int] <= prev_out[j - 1]);
                        assert(prev_out[idx as int] > x);
                    } else {
                        assert(j - 1 == idx);
                        assert(prev_out[j - 1] > x);
                    }
                }
            }
            v@.lemma_take_succ_push(k as int);
        }
        k = k + 1;
    }
    proof {
        v@.lemma_take_len();
        assert forall|x: i32| out@.contains(x) <==> v@.contains(x) by {
            assert(out@.contains(x) <==> out@.to_multiset().count(x) > 0);
            assert(v@.contains(x) <==> v@.to_multiset().count(x) > 0);
        }
    }
    out
}

/// Removes duplicates from a sorted sequence, keeping the order and the set
/// of elements.
pub fn dedup_sorted(v: &Vec<i32>) -> (r: Vec<i32>)
    requires
        spec_sorted(v@),
    ensures
        spec_strictly_sorted(r@),
        forall|x: i32| r@.contains(x) <==> v@.contains(x),
{
    let mut out: Vec<i32> = Vec::new();
    let mut k: usize = 0;
    while k < v.len()
        invariant
            spec_sorted(v@),
            k <= v@.len(),
            spec_strictly_sorted(out@),
            forall|x: i32| out@.contains(x) <==> v@.take(k as int).contains(x),
            out@.len() > 0 ==> k > 0,
            out@.len() > 0 ==> v@.take(k as int).contains(out@[out@.len() - 1]),
            forall|i: int| 0 <= i < out@.len() ==> #[trigger] out@[i] <= out@[out@.len() - 1],
        decreases v@.len() - k,
    {
        let x = v[k];
        proof {
            v@.lemma_take_succ_push(k as int);
        }
        if out.len() == 0 {
            let ghost prev_out = out@;
            out.push(x);
            proof {
                assert(prev_out.len() == 0);
                assert forall|y: i32| out@.contains(y) <==> v@.take(k as int + 1).contains(
                    y,
                ) by {
                    lemma_push_contains_i32(prev_out, x, y);
                    lemma_push_contains_i32(v@.take(k as int), x, y);
                    assert(v@.take(k as int + 1) == v@.take(k as int).push(x));
                    assert(!prev_out.contains(y));
                }
                assert(out@[0] == x);
                assert(v@.take(k as int + 1)[k as int] == x);
            }
        } else {
            let last = out[out.len() - 1];
            proof {
                // every element seen so far is at most v[k]
                let iw = choose|i: int| 0 <= i < k && v@.take(k as int)[i] == last;
                assert(v@[iw] == last);
                assert(last <= x);
            }
            if last < x {
                let ghost prev_out = out@;
                out.push(x);
                proof {
                    assert forall|i: int, j: int|
                        0 <= i < j < out@.len() implies out@[i] < out@[j] by {
                        if j == out@.len() - 1 {
                            assert(out@[i] == prev_out[i]);
                            assert(prev_out[i] <= prev_out[prev_out.len() - 1]);
                        }
                    }
                    assert forall|y: i32| out@.contains(y) <==> v@.take(k as int + 1).contains(
                        y,
                    ) by {
                        lemma_push_contains_i32(prev_out, x, y);
                        lemma_push_contains_i32(v@.take(k as int), x, y);
                        assert(v@.take(k as int + 1) == v@.take(k as int).push(x));
                    }
                    assert(out@[out@.len() - 1] == x);
                    assert(v@.take(k as int + 1)[k as int] == x);
                }
            } else {
                proof {
                    // x equals the last element already kept, so nothing changes
                    assert(last == x);
                    assert forall|y: i32| out@.contains(y) <==> v@.take(k as int + 1).contains(
                        y,
                    ) by {
                        lemma_push_contains_i32(v@.take(k as int), x, y);
                        assert(v@.take(k as int + 1) == v@.take(k as int).push(x));
                        if y == x {
                            assert(out@.contains(out@[out@.len() - 1]));
                        }
                    }
                    assert(v@.take(k as int + 1).contains(out@[out@.len() - 1]));
                }
            }
        }
        k = k + 1;
    }
    proof {
        v@.lemma_take_len();
    }
    out
}

/// Membership in a pushed sequence: the pushed element, or anything the
/// original already held.
proof fn lemma_push_contains_i32(s: Seq<i32>, x: i32, v: i32)
    ensures
        s.push(x).contains(v) <==> (s.contains(v) || v == x),
{
    if s.contains(v) {
        let i = choose|i: int| 0 <= i < s.len() && s[i] == v;
        assert(s.push(x)[i] == v);
    }
    if v == x {
        assert(s.push(x)[s.len() as int] == v);
    }
    if s.push(x).contains(v) && v != x {
        let i = choose|i: int| 0 <= i < s.push(x).len() && s.push(x)[i] == v;
        assert(s[i] == v);
    }
}

} // verus!
