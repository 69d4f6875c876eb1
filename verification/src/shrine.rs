use vstd::prelude::*;

use crate::stats::{
    is_attunement_slot, is_trainable_slot, lemma_view_layout, read_stat, section_len,
    section_offset, stat_sum, write_stat, StatBlock, StatSection,
};

verus! {

/// Total stat points a character has to spend.
pub const TOTAL_POINTS: i32 = 330;

/// What the shrine leaves of one stat: nothing of an unused stat; a trainable
/// stat of 26 or more loses 25; every other used stat drops to 1.
pub open spec fn reduced_value(i: int, v: u8) -> u8 {
    if v == 0 {
        0
    } else if is_trainable_slot(i) && v >= 26 {
        (v - 25) as u8
    } else {
        1
    }
}

/// The stats after the shrine has taken its points, for the first `n` slots
/// (the later ones unchanged).
pub open spec fn reduced_upto(p: Seq<u8>, n: int) -> Seq<u8> {
    Seq::new(
        p.len(),
        |i: int|
            if i < n {
                reduced_value(i, p[i])
            } else {
                p[i]
            },
    )
}

/// The points the shrine takes from the first `n` slots.
pub open spec fn pool_upto(p: Seq<u8>, n: int) -> int
    decreases n,
{
    if n <= 0 {
        0
    } else {
        pool_upto(p, n - 1) + (p[n - 1] - reduced_value(n - 1, p[n - 1]))
    }
}

/// The used slots among the first `n`, in order.
pub open spec fn active_upto(p: Seq<u8>, n: int) -> Seq<int>
    decreases n,
{
    if n <= 0 {
        Seq::empty()
    } else if p[n - 1] >= 1 {
        active_upto(p, n - 1).push(n - 1)
    } else {
        active_upto(p, n - 1)
    }
}

/// Number of used attunements among the first `n` slots.
pub open spec fn attunements_upto(p: Seq<u8>, n: int) -> int
    decreases n,
{
    if n <= 0 {
        0
    } else if is_attunement_slot(n - 1) && p[n - 1] >= 1 {
        attunements_upto(p, n - 1) + 1
    } else {
        attunements_upto(p, n - 1)
    }
}

/// Smallest value strictly above `floor` at the given slots, or 256 when there
/// is none.
pub open spec fn min_above(stats: Seq<u8>, slots: Seq<int>, floor: int) -> int
    decreases slots.len(),
{
    if slots.len() == 0 {
        256
    } else {
        let rest = min_above(stats, slots.drop_last(), floor);
        let v = stats[slots.last()] as int;
        if v > floor && v < rest {
            v
        } else {
            rest
        }
    }
}

/// Number of the given slots that hold `value`.
pub open spec fn count_equal(stats: Seq<u8>, slots: Seq<int>, value: int) -> int
    decreases slots.len(),
{
    if slots.len() == 0 {
        0
    } else if stats[slots.last()] == value {
        count_equal(stats, slots.drop_last(), value) + 1
    } else {
        count_equal(stats, slots.drop_last(), value)
    }
}

/// Adds `amount` to every given slot that holds `value`.
pub open spec fn raise_equal(stats: Seq<u8>, slots: Seq<int>, value: int, amount: int) -> Seq<u8>
    decreases slots.len(),
{
    if slots.len() == 0 {
        stats
    } else {
        let r = raise_equal(stats, slots.drop_last(), value, amount);
        let s = slots.last();
        if stats[s] == value {
            r.update(s, (stats[s] + amount) as u8)
        } else {
            r
        }
    }
}

/// Adds `add_each` to every given slot, and `rem` more to the first one.
pub open spec fn split_evenly(stats: Seq<u8>, slots: Seq<int>, add_each: int, rem: int) -> Seq<u8>
    decreases slots.len(),
{
    if slots.len() == 0 {
        stats
    } else {
        let r = split_evenly(stats, slots.drop_last(), add_each, rem);
        let s = slots.last();
        let extra = if rem > 0 && slots.len() == 1 {
            rem
        } else {
            0
        };
        r.update(s, (stats[s] + add_each + extra) as u8)
    }
}

/// A value below 256 at the slots is held by at least one of them.
pub proof fn lemma_min_above_held(stats: Seq<u8>, slots: Seq<int>, floor: int)
    requires
        min_above(stats, slots, floor) < 256,
    ensures
        count_equal(stats, slots, min_above(stats, slots, floor)) >= 1,
    decreases slots.len(),
{
    let m = min_above(stats, slots, floor);
    let rest = min_above(stats, slots.drop_last(), floor);
    if m == rest {
        lemma_min_above_held(stats, slots.drop_last(), floor);
        lemma_count_equal_monotone(stats, slots, m);
    } else {
        lemma_count_equal_nonneg(stats, slots.drop_last(), m);
    }
}

/// Counts are never negative.
pub proof fn lemma_count_equal_nonneg(stats: Seq<u8>, slots: Seq<int>, value: int)
    ensures
        0 <= count_equal(stats, slots, value) <= slots.len(),
    decreases slots.len(),
{
    if slots.len() > 0 {
        lemma_count_equal_nonneg(stats, slots.drop_last(), value);
    }
}

/// The smallest value above a floor is above the floor, unless there is none.
pub proof fn lemma_min_above_gt(stats: Seq<u8>, slots: Seq<int>, floor: int)
    ensures
        min_above(stats, slots, floor) == 256 || min_above(stats, slots, floor) > floor,
        min_above(stats, slots, floor) <= 256,
    decreases slots.len(),
{
    if slots.len() > 0 {
        lemma_min_above_gt(stats, slots.drop_last(), floor);
    }
}

/// Counting over a longer list of slots never counts fewer.
pub proof fn lemma_count_equal_monotone(stats: Seq<u8>, slots: Seq<int>, value: int)
    requires
        slots.len() > 0,
    ensures
        count_equal(stats, slots, value) >= count_equal(stats, slots.drop_last(), value),
{
}

/// Spreads `total` points over the slots: the lowest slots are raised level
/// with the next lowest as long as the points allow, and once all slots are
/// level the rest is split evenly, the remainder going to the first slot.
pub open spec fn distribute(stats: Seq<u8>, slots: Seq<int>, total: int) -> Seq<u8>
    decreases total,
{
    if total <= 0 {
        stats
    } else {
        let lowest = min_above(stats, slots, -1);
        let above = min_above(stats, slots, lowest);
        let second = if above == 256 {
            lowest
        } else {
            above
        };
        if lowest == second {
            let count = slots.len() as int;
            if total >= count && count > 0 {
                split_evenly(stats, slots, total / count, total % count)
            } else {
                stats
            }
        } else {
            let lowest_count = count_equal(stats, slots, lowest);
            let difference = second - lowest;
            if total < lowest_count {
                stats
            } else if difference > 0 && total >= difference * lowest_count {
                proof {
                    lemma_min_above_held(stats, slots, -1);
                    assert(difference * lowest_count >= 1) by (nonlinear_arith)
                        requires
                            difference >= 1,
                            lowest_count >= 1,
                    ;
                }
                distribute(
                    raise_equal(stats, slots, lowest, difference),
                    slots,
                    total - difference * lowest_count,
                )
            } else if lowest_count > 0 && total / lowest_count > 0 {
                raise_equal(stats, slots, lowest, total / lowest_count)
            } else {
                stats
            }
        }
    }
}

/// The stats the Shrine of Order leaves from the given PRE stats.
pub open spec fn shrine_stats(p: Seq<u8>) -> Seq<u8> {
    let reduced = reduced_upto(p, 16);
    let slots = active_upto(p, 16);
    if slots.len() == 0 {
        reduced
    } else {
        distribute(reduced, slots, pool_upto(p, 16))
    }
}

/// The points left to spend after the Shrine of Order: the total minus the
/// points its stats hold, with one point back for every used attunement past
/// the first.
pub open spec fn shrine_spare(p: Seq<u8>) -> int {
    let slots = active_upto(p, 16);
    let attunements = attunements_upto(p, 16);
    if slots.len() == 0 {
        330
    } else {
        330 - stat_sum(shrine_stats(p)) + (if attunements > 1 {
            attunements - 1
        } else {
            0
        })
    }
}

/// Flat index of a (section, index) pair.
pub open spec fn pair_index(p: (StatSection, usize)) -> int {
    section_offset(p.0) + p.1
}

/// Flat indices of a list of (section, index) pairs.
pub open spec fn pair_indices(s: Seq<(StatSection, usize)>) -> Seq<int> {
    s.map_values(|p: (StatSection, usize)| pair_index(p))
}

/// The used slots are increasing, below `n`, and used.
pub proof fn lemma_active_upto(p: Seq<u8>, n: int)
    ensures
        forall|a: int, b: int|
            0 <= a < b < active_upto(p, n).len() ==> active_upto(p, n)[a] < active_upto(p, n)[b],
        forall|a: int|
            0 <= a < active_upto(p, n).len() ==> 0 <= #[trigger] active_upto(p, n)[a] < n && p[active_upto(p, n)[a]] >= 1,
        active_upto(p, n).len() <= (if n > 0 { n } else { 0 }),
    decreases n,
{
    if n > 0 {
        lemma_active_upto(p, n - 1);
        let rest = active_upto(p, n - 1);
        let all = active_upto(p, n);
        if p[n - 1] >= 1 {
            assert(all == rest.push(n - 1));
            assert forall|a: int| 0 <= a < all.len() implies 0 <= #[trigger] all[a] < n && p[all[a]]
                >= 1 by {
                if a < rest.len() {
                    assert(all[a] == rest[a]);
                }
            }
        } else {
            assert(all == rest);
        }
    }
}

/// The points the shrine takes are at most 254 per slot.
pub proof fn lemma_pool_upto_bounds(p: Seq<u8>, n: int)
    requires
        0 <= n <= p.len(),
    ensures
        0 <= pool_upto(p, n) <= 254 * n,
    decreases n,
{
    if n > 0 {
        lemma_pool_upto_bounds(p, n - 1);
    }
}

/// Raising leaves slots outside the list untouched.
pub proof fn lemma_raise_equal_frame(stats: Seq<u8>, slots: Seq<int>, value: int, amount: int, t: int)
    requires
        forall|i: int| 0 <= i < slots.len() ==> slots[i] != t && 0 <= slots[i] < stats.len(),
        0 <= t < stats.len(),
    ensures
        raise_equal(stats, slots, value, amount)[t] == stats[t],
        raise_equal(stats, slots, value, amount).len() == stats.len(),
    decreases slots.len(),
{
    if slots.len() > 0 {
        lemma_raise_equal_frame(stats, slots.drop_last(), value, amount, t);
    }
}

/// Splitting leaves slots outside the list untouched.
pub proof fn lemma_split_evenly_frame(stats: Seq<u8>, slots: Seq<int>, add_each: int, rem: int, t: int)
    requires
        forall|i: int| 0 <= i < slots.len() ==> slots[i] != t && 0 <= slots[i] < stats.len(),
        0 <= t < stats.len(),
    ensures
        split_evenly(stats, slots, add_each, rem)[t] == stats[t],
        split_evenly(stats, slots, add_each, rem).len() == stats.len(),
    decreases slots.len(),
{
    if slots.len() > 0 {
        lemma_split_evenly_frame(stats, slots.drop_last(), add_each, rem, t);
    }
}

/// Counting over a prefix of the slots never counts more.
pub proof fn lemma_count_equal_prefix(stats: Seq<u8>, slots: Seq<int>, value: int, k: int)
    requires
        0 <= k <= slots.len(),
    ensures
        count_equal(stats, slots.take(k), value) <= count_equal(stats, slots, value),
    decreases slots.len() - k,
{
    if k == slots.len() {
        assert(slots.take(k) =~= slots);
    } else {
        lemma_count_equal_prefix(stats, slots, value, k + 1);
        assert(slots.take(k + 1).drop_last() =~= slots.take(k));
        lemma_count_equal_monotone(stats, slots.take(k + 1), value);
    }
}

/// `stat_sum` splits over concatenation.
pub proof fn lemma_stat_sum_add(a: Seq<u8>, b: Seq<u8>)
    ensures
        stat_sum(a + b) == stat_sum(a) + stat_sum(b),
    decreases a.len(),
{
    if a.len() == 0 {
        assert(a + b =~= b);
    } else {
        lemma_stat_sum_add(a.drop_first(), b);
        assert((a + b).drop_first() =~= a.drop_first() + b);
    }
}

/// Sum of all entries of an array.
pub fn sum_values<const N: usize>(values: &[u8; N]) -> (r: i32)
    requires
        N <= 8_000_000,
    ensures
        r == stat_sum(values@),
        0 <= r <= 255 * N,
{
    let mut total: i32 = 0;
    let mut i: usize = 0;
    assert(values@.subrange(0, 0) =~= Seq::<u8>::empty());
    while i < N
        invariant
            i <= N,
            N <= 8_000_000,
            total == stat_sum(values@.subrange(0, i as int)),
            0 <= total <= 255 * i,
        decreases N - i,
    {
        proof {
            lemma_stat_sum_add(values@.subrange(0, i as int), seq![values@[i as int]]);
            assert(values@.subrange(0, i + 1) =~= values@.subrange(0, i as int) + seq![
                values@[i as int],
            ]);
            assert(seq![values@[i as int]].drop_first() =~= Seq::<u8>::empty());
            assert(stat_sum(Seq::<u8>::empty()) == 0);
        }
        total = total + values[i] as i32;
        i += 1;
    }
    assert(values@.subrange(0, N as int) =~= values@);
    total
}

/// Spreads `total` points over the listed stats as `distribute` describes.
fn distribute_points(shrine: &mut StatBlock, post_stats: &Vec<(StatSection, usize)>, total: i32)
    requires
        post_stats@.len() > 0,
        post_stats@.len() <= 16,
        forall|a: int|
            0 <= a < post_stats@.len() ==> (#[trigger] post_stats@[a]).1 < section_len(
                post_stats@[a].0,
            ),
        forall|a: int, b: int|
            0 <= a < b < post_stats@.len() ==> pair_indices(post_stats@)[a] < pair_indices(
                post_stats@,
            )[b],
        0 <= total <= 254 * 16,
    ensures
        final(shrine)@ == distribute(old(shrine)@, pair_indices(post_stats@), total as int),
{
    let ghost slots = pair_indices(post_stats@);
    let ghost target = distribute(shrine@, slots, total as int);
    proof {
        lemma_view_layout(*shrine);
        assert forall|a: int| 0 <= a < slots.len() implies 0 <= #[trigger] slots[a] < 16 by {
            assert(slots[a] == pair_index(post_stats@[a]));
        }
    }
    let n = post_stats.len();
    let mut total_to_distribute = total;
    let mut finished = false;
    while !finished && total_to_distribute > 0
        invariant
            n == post_stats@.len(),
            0 < n <= 16,
            slots == pair_indices(post_stats@),
            forall|a: int|
                0 <= a < post_stats@.len() ==> (#[trigger] post_stats@[a]).1 < section_len(
                    post_stats@[a].0,
                ),
            forall|a: int, b: int| 0 <= a < b < slots.len() ==> slots[a] < slots[b],
            forall|a: int| 0 <= a < slots.len() ==> 0 <= #[trigger] slots[a] < 16,
            shrine@.len() == 16,
            0 <= total_to_distribute <= 254 * 16,
            finished ==> shrine@ == target,
            !finished ==> distribute(shrine@, slots, total_to_distribute as int) == target,
        decreases total_to_distribute * 2 + (if finished {
            0int
        } else {
            1int
        }),
    {
        let ghost start = shrine@;
        let ghost total0 = total_to_distribute as int;

        let mut lowest: i32 = 256;
        let mut k: usize = 0;
        assert(slots.take(0) =~= Seq::<int>::empty());
        while k < n
            invariant
                k <= n,
                n == post_stats@.len(),
                slots == pair_indices(post_stats@),
                forall|a: int|
                    0 <= a < post_stats@.len() ==> (#[trigger] post_stats@[a]).1 < section_len(
                        post_stats@[a].0,
                    ),
                shrine@ == start,
                lowest == min_above(start, slots.take(k as int), -1),
                0 <= lowest <= 256,
            decreases n - k,
        {
            let (section, index) = post_stats[k];
            let v = read_stat(shrine, section, index) as i32;
            proof {
                assert(slots[k as int] == pair_index(post_stats@[k as int]));
                assert(slots.take(k + 1).drop_last() =~= slots.take(k as int));
            }
            if v < lowest {
                lowest = v;
            }
            k += 1;
        }
        assert(slots.take(n as int) =~= slots);

        let mut above: i32 = 256;
        let mut k: usize = 0;
        while k < n
            invariant
                k <= n,
                n == post_stats@.len(),
                slots == pair_indices(post_stats@),
                forall|a: int|
                    0 <= a < post_stats@.len() ==> (#[trigger] post_stats@[a]).1 < section_len(
                        post_stats@[a].0,
                    ),
                shrine@ == start,
                0 <= lowest <= 256,
                above == min_above(start, slots.take(k as int), lowest as int),
                0 <= above <= 256,
            decreases n - k,
        {
            let (section, index) = post_stats[k];
            let v = read_stat(shrine, section, index) as i32;
            proof {
                assert(slots[k as int] == pair_index(post_stats@[k as int]));
                assert(slots.take(k + 1).drop_last() =~= slots.take(k as int));
            }
            if v > lowest && v < above {
                above = v;
            }
            k += 1;
        }
        let second_lowest = if above == 256 {
            lowest
        } else {
            above
        };

        if lowest == second_lowest {
            let count = n as i32;
            if total_to_distribute >= count {
                let add_each = total_to_distribute / count;
                let remainder = total_to_distribute % count;
                let mut offset: usize = 0;
                while offset < n
                    invariant
                        offset <= n,
                        n == post_stats@.len(),
                        n <= 16,
                        count == n,
                        slots == pair_indices(post_stats@),
                        forall|a: int|
                            0 <= a < post_stats@.len() ==> (#[trigger] post_stats@[a]).1
                                < section_len(post_stats@[a].0),
                        forall|a: int, b: int| 0 <= a < b < slots.len() ==> slots[a] < slots[b],
                        forall|a: int| 0 <= a < slots.len() ==> 0 <= #[trigger] slots[a] < 16,
                        start.len() == 16,
                        0 <= add_each <= 254 * 16,
                        0 <= remainder < count,
                        shrine@ == split_evenly(
                            start,
                            slots.take(offset as int),
                            add_each as int,
                            remainder as int,
                        ),
                    decreases n - offset,
                {
                    let (section, index) = post_stats[offset];
                    proof {
                        assert(slots[offset as int] == pair_index(post_stats@[offset as int]));
                        lemma_split_evenly_frame(
                            start,
                            slots.take(offset as int),
                            add_each as int,
                            remainder as int,
                            slots[offset as int],
                        );
                        assert(slots.take(offset + 1).drop_last() =~= slots.take(offset as int));
                    }
                    let mut new_value = read_stat(shrine, section, index) as i32 + add_each;
                    if remainder > 0 && offset == 0 {
                        new_value += remainder;
                    }
                    write_stat(shrine, section, index, new_value as u8);
                    offset += 1;
                }
                assert(slots.take(n as int) =~= slots);
            }
            finished = true;
        } else {
            let mut lowest_count: i32 = 0;
            let mut k: usize = 0;
            while k < n
                invariant
                    k <= n,
                    n == post_stats@.len(),
                    n <= 16,
                    slots == pair_indices(post_stats@),
                    forall|a: int|
                        0 <= a < post_stats@.len() ==> (#[trigger] post_stats@[a]).1 < section_len(
                            post_stats@[a].0,
                        ),
                    shrine@ == start,
                    0 <= lowest <= 256,
                    0 <= second_lowest <= 256,
                    lowest_count == count_equal(start, slots.take(k as int), lowest as int),
                    0 <= lowest_count <= k,
                decreases n - k,
            {
                let (section, index) = post_stats[k];
                let v = read_stat(shrine, section, index) as i32;
                proof {
                    assert(slots[k as int] == pair_index(post_stats@[k as int]));
                    assert(slots.take(k + 1).drop_last() =~= slots.take(k as int));
                }
                if v == lowest {
                    lowest_count += 1;
                }
                k += 1;
            }
            proof {
                lemma_min_above_held(start, slots, -1);
                lemma_min_above_gt(start, slots, lowest as int);
                assert(second_lowest > lowest);
                assert((second_lowest - lowest) * lowest_count <= 256 * 16) by (nonlinear_arith)
                    requires
                        0 <= second_lowest - lowest <= 256,
                        0 <= lowest_count <= 16,
                ;
            }
            let difference = second_lowest - lowest;
            if total_to_distribute < lowest_count {
                finished = true;
            } else if difference > 0 && total_to_distribute >= difference * lowest_count {
                let mut k: usize = 0;
                while k < n
                    invariant
                        k <= n,
                        n == post_stats@.len(),
                        slots == pair_indices(post_stats@),
                        forall|a: int|
                            0 <= a < post_stats@.len() ==> (#[trigger] post_stats@[a]).1
                                < section_len(post_stats@[a].0),
                        forall|a: int, b: int| 0 <= a < b < slots.len() ==> slots[a] < slots[b],
                        forall|a: int| 0 <= a < slots.len() ==> 0 <= #[trigger] slots[a] < 16,
                        start.len() == 16,
                        1 <= difference <= 256,
                        lowest_count == count_equal(start, slots, lowest as int),
                        total0 >= difference * lowest_count,
                        0 <= total0 <= 254 * 16,
                        shrine@ == raise_equal(
                            start,
                            slots.take(k as int),
                            lowest as int,
                            difference as int,
                        ),
                        total_to_distribute == total0 - difference * count_equal(
                            start,
                            slots.take(k as int),
                            lowest as int,
                        ),
                    decreases n - k,
                {
                    let (section, index) = post_stats[k];
                    proof {
                        assert(slots[k as int] == pair_index(post_stats@[k as int]));
                        lemma_raise_equal_frame(
                            start,
                            slots.take(k as int),
                            lowest as int,
                            difference as int,
                            slots[k as int],
                        );
                        assert(slots.take(k + 1).drop_last() =~= slots.take(k as int));
                        lemma_count_equal_prefix(start, slots, lowest as int, k + 1);
                        lemma_count_equal_nonneg(start, slots.take(k as int), lowest as int);
                        let c = count_equal(start, slots.take(k as int), lowest as int);
                        assert(difference * (c + 1) == difference * c + difference)
                            by (nonlinear_arith);
                        assert(difference * c <= difference * lowest_count) by (nonlinear_arith)
                            requires
                                difference >= 1,
                                c <= lowest_count,
                        ;
                    }
                    let v = read_stat(shrine, section, index) as i32;
                    if v == lowest {
                        proof {
                            let c = count_equal(start, slots.take(k as int), lowest as int);
                            assert(count_equal(start, slots.take(k + 1), lowest as int) == c + 1);
                            assert(difference * (c + 1) <= difference * lowest_count)
                                by (nonlinear_arith)
                                requires
                                    difference >= 1,
                                    c + 1 <= lowest_count,
                            ;
                        }
                        let new_value = v + difference;
                        write_stat(shrine, section, index, new_value as u8);
                        total_to_distribute -= difference;
                    }
                    k += 1;
                }
                assert(slots.take(n as int) =~= slots);
                assert(difference * lowest_count >= 1) by (nonlinear_arith)
                    requires
                        difference >= 1,
                        lowest_count >= 1,
                ;
            } else {
                let add_each = total_to_distribute / lowest_count;
                if add_each != 0 {
                    let mut k: usize = 0;
                    while k < n
                        invariant
                            k <= n,
                            n == post_stats@.len(),
                            slots == pair_indices(post_stats@),
                            forall|a: int|
                                0 <= a < post_stats@.len() ==> (#[trigger] post_stats@[a]).1
                                    < section_len(post_stats@[a].0),
                            forall|a: int, b: int|
                                0 <= a < b < slots.len() ==> slots[a] < slots[b],
                            forall|a: int| 0 <= a < slots.len() ==> 0 <= #[trigger] slots[a] < 16,
                            start.len() == 16,
                            0 <= add_each <= 254 * 16,
                            shrine@ == raise_equal(
                                start,
                                slots.take(k as int),
                                lowest as int,
                                add_each as int,
                            ),
                        decreases n - k,
                    {
                        let (section, index) = post_stats[k];
                        proof {
                            assert(slots[k as int] == pair_index(post_stats@[k as int]));
                            lemma_raise_equal_frame(
                                start,
                                slots.take(k as int),
                                lowest as int,
                                add_each as int,
                                slots[k as int],
                            );
                            assert(slots.take(k + 1).drop_last() =~= slots.take(k as int));
                        }
                        let v = read_stat(shrine, section, index) as i32;
                        if v == lowest {
                            let new_value = v + add_each;
                            write_stat(shrine, section, index, new_value as u8);
                        }
                        k += 1;
                    }
                    assert(slots.take(n as int) =~= slots);
                }
                finished = true;
            }
        }
    }
}

/// Models the Shrine of Order on the given PRE stats: every used base and
/// weapon stat gives up to 25 points (keeping at least 1), every used
/// attunement drops to 1, and the points taken are spread back over the used
/// stats, lowest first. Returns the resulting stats and the points left to
/// spend.
pub fn shrine_of_order(pre: &StatBlock) -> (r: Option<(StatBlock, i32)>)
    ensures
        match r {
            Some((shrine, spare)) => shrine@ == shrine_stats(pre@) && spare == shrine_spare(pre@),
            None => false,
        },
{
    let mut shrine = *pre;
    let mut total_to_distribute: i32 = 0;
    let mut post_stats: Vec<(StatSection, usize)> = Vec::new();
    let mut non_zero_attunements: i32 = 0;
    proof {
        lemma_view_layout(*pre);
        assert(shrine@ =~= reduced_upto(pre@, 0));
    }

    let mut index: usize = 0;
    while index < 6
        invariant
            index <= 6,
            pre@.len() == 16,
            forall|j: int| 0 <= j < 6 ==> #[trigger] pre@[j] == pre.base@[j],
            shrine@ == reduced_upto(pre@, index as int),
            total_to_distribute == pool_upto(pre@, index as int),
            0 <= total_to_distribute <= 254 * index,
            pair_indices(post_stats@) == active_upto(pre@, index as int),
            forall|a: int| 0 <= a < post_stats@.len() ==> (#[trigger] post_stats@[a]).1 < section_len(post_stats@[a].0),
            non_zero_attunements == attunements_upto(pre@, index as int),
            non_zero_attunements == 0,
        decreases 6 - index,
    {
        proof {
            lemma_view_layout(shrine);
        }
        let ghost before = shrine@;
        assert(before[index as int] == shrine.base@[index as int]);
        let value = shrine.base[index];
        assert(value == pre@[index as int]);
        if value >= 1 {
            if value >= 26 {
                shrine.base[index] = value - 25;
                total_to_distribute += 25;
            } else {
                total_to_distribute += (value as i32) - 1;
                shrine.base[index] = 1;
            }
            post_stats.push((StatSection::Base, index));
        }
        proof {
            lemma_view_layout(shrine);
            assert(shrine@ =~= before.update(index as int, reduced_value(index as int, value)));
            assert(shrine@ =~= reduced_upto(pre@, index + 1));
            assert(pair_indices(post_stats@) =~= active_upto(pre@, index + 1));
        }
        index += 1;
    }

    let mut index: usize = 0;
    while index < 3
        invariant
            index <= 3,
            pre@.len() == 16,
            forall|j: int| 0 <= j < 3 ==> #[trigger] pre@[j + 6] == pre.weapon@[j],
            shrine@ == reduced_upto(pre@, 6 + index),
            total_to_distribute == pool_upto(pre@, 6 + index),
            0 <= total_to_distribute <= 254 * (6 + index),
            pair_indices(post_stats@) == active_upto(pre@, 6 + index),
            forall|a: int| 0 <= a < post_stats@.len() ==> (#[trigger] post_stats@[a]).1 < section_len(post_stats@[a].0),
            non_zero_attunements == attunements_upto(pre@, 6 + index),
            non_zero_attunements == 0,
        decreases 3 - index,
    {
        proof {
            lemma_view_layout(shrine);
        }
        let ghost before = shrine@;
        assert(before[6 + index] == shrine.weapon@[index as int]);
        let value = shrine.weapon[index];
        assert(value == pre@[6 + index]);
        if value >= 1 {
            if value >= 26 {
                shrine.weapon[index] = value - 25;
                total_to_distribute += 25;
            } else {
                total_to_distribute += (value as i32) - 1;
                shrine.weapon[index] = 1;
            }
            post_stats.push((StatSection::Weapon, index));
        }
        proof {
            lemma_view_layout(shrine);
            assert(shrine@ =~= before.update(6 + index, reduced_value(6 + index, value)));
            assert(shrine@ =~= reduced_upto(pre@, 6 + index + 1));
            assert(pair_indices(post_stats@) =~= active_upto(pre@, 6 + index + 1));
        }
        index += 1;
    }

    let mut index: usize = 0;
    while index < 7
        invariant
            index <= 7,
            pre@.len() == 16,
            forall|j: int| 0 <= j < 7 ==> #[trigger] pre@[j + 9] == pre.attunement@[j],
            shrine@ == reduced_upto(pre@, 9 + index),
            total_to_distribute == pool_upto(pre@, 9 + index),
            0 <= total_to_distribute <= 254 * (9 + index),
            pair_indices(post_stats@) == active_upto(pre@, 9 + index),
            forall|a: int| 0 <= a < post_stats@.len() ==> (#[trigger] post_stats@[a]).1 < section_len(post_stats@[a].0),
            non_zero_attunements == attunements_upto(pre@, 9 + index),
            0 <= non_zero_attunements <= index,
        decreases 7 - index,
    {
        proof {
            lemma_view_layout(shrine);
        }
        let ghost before = shrine@;
        assert(before[9 + index] == shrine.attunement@[index as int]);
        let value = shrine.attunement[index];
        assert(value == pre@[9 + index]);
        if value >= 1 {
            total_to_distribute += (value as i32) - 1;
            shrine.attunement[index] = 1;
            non_zero_attunements += 1;
            post_stats.push((StatSection::Attunement, index));
        }
        proof {
            lemma_view_layout(shrine);
            assert(shrine@ =~= before.update(9 + index, reduced_value(9 + index, value)));
            assert(shrine@ =~= reduced_upto(pre@, 9 + index + 1));
            assert(pair_indices(post_stats@) =~= active_upto(pre@, 9 + index + 1));
        }
        index += 1;
    }

    if post_stats.len() == 0 {
        return Some((shrine, 330));
    }
    proof {
        lemma_active_upto(pre@, 16);
    }
    distribute_points(&mut shrine, &post_stats, total_to_distribute);

    let points_spent = sum_values(&shrine.base) + sum_values(&shrine.weapon) + sum_values(
        &shrine.attunement,
    );
    proof {
        lemma_stat_sum_add(shrine.base@, shrine.weapon@);
        lemma_stat_sum_add(shrine.base@ + shrine.weapon@, shrine.attunement@);
    }
    let mut total_points_spare = 330 - points_spent;
    if non_zero_attunements > 1 {
        total_points_spare += non_zero_attunements - 1;
    }
    Some((shrine, total_points_spare))
}

} // verus!
