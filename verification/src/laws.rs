use vstd::prelude::*;

use crate::nuxt::{
    json_array, json_object, json_text, json_u8, member, nuxt_payload, JsonValue, NUXT_START_MARKER,
    SCRIPT_END_MARKER,
};
use crate::optimizer::{
    any_fold, block_changes_text, named_text, result_text, rule_line, stat_block_text, best_over_variants, best_upto, blocks_of, fold_derived, fold_max, treat_as_pre, combination_count, combo_pre_post, improve,
    optimize_outcome, too_many_any, variant_candidate, Candidate, OwnedTalentPrereq,
};
use crate::planner::{matching_indices, planned_prereqs, DeepwokenApp, SelectedTalent};
use crate::wiki::{
    entry_object, entry_rarity, entry_requirements, entry_talents, entry_text, talent_key,
    variant_talent,
};
use crate::shrine::{
    active_upto, count_equal, distribute, lemma_active_upto, lemma_min_above_held,
    lemma_raise_equal_frame, lemma_split_evenly_frame, min_above, pool_upto, raise_equal,
    reduced_upto, reduced_value, shrine_stats, split_evenly,
};
use crate::stats::{
    deficit_total, derived_post, expand_slot, max_u8, zero_stats, impossible_pair, lemma_view_layout,
    lemma_zero_slots_upto, pre_candidates, stat_sum, stats_max, variants_after, zero_slots,
    zero_variants, StatBlock,
};
use crate::talent::{
    chip_slot, first_occurrences, lemma_talent_before_asymmetric, lemma_talent_before_total,
    lemma_talent_before_transitive, is_last_copy, last_of_key, listed_from, talent_before,
    display_text, str_views, TalentCategory, TalentView, ATTUNEMENT_STATS, BASE_STATS, WEAPON_STATS,
};
use crate::text::{first_from, int_text, lowercase, nat_text, lemma_text_less_irreflexive, occurs_at, occurs_in};
use crate::variants::{
    alternatives, chip_choice, empty_variant, expand_spec, expanded_variants, group_choices, group_fan,
    listed_variants, nesting_depth, nesting_ends, note_phase, option_variants, raise,
    req_nesting_ends, requirement_notes, stat_group, stat_step, stats_phase, text_choice, with_note,
    RequirementVariant, VariantView, BODY_CHOICES, MIND_CHOICES, WEAPON_CHOICES,
};

verus! {

/// Merging two sets of stat requirements gives the same block whichever is
/// merged into which, and merging the same requirements again changes
/// nothing.
pub proof fn law_merge_commutes_and_absorbs(a: StatBlock, b: StatBlock)
    ensures
        stats_max(a@, b@) == stats_max(b@, a@),
        stats_max(stats_max(a@, b@), b@) == stats_max(a@, b@),
        forall|i: int| 0 <= i < 16 ==> stats_max(a@, b@)[i] >= a@[i] && stats_max(a@, b@)[i] >= b@[i],
{
    lemma_view_layout(a);
    lemma_view_layout(b);
    assert(stats_max(a@, b@) =~= stats_max(b@, a@));
    assert(stats_max(stats_max(a@, b@), b@) =~= stats_max(a@, b@));
}

/// Deriving the POST requirements that PRE requirements imply only raises
/// stats, and deriving them a second time changes nothing.
pub proof fn law_derived_post_settles(post: StatBlock, pre: StatBlock)
    ensures
        derived_post(derived_post(post@, pre@), pre@) == derived_post(post@, pre@),
        forall|i: int| 0 <= i < 16 ==> derived_post(post@, pre@)[i] >= post@[i],
{
    lemma_view_layout(post);
    lemma_view_layout(pre);
    assert(derived_post(derived_post(post@, pre@), pre@) =~= derived_post(post@, pre@));
}

/// The shortfall of `current` against `required`, summed, is what raising
/// `current` to `required` adds.
proof fn lemma_deficit_is_added(current: Seq<u8>, required: Seq<u8>)
    requires
        current.len() == required.len(),
    ensures
        deficit_total(current, required) == stat_sum(stats_max(current, required)) - stat_sum(
            current,
        ),
    decreases current.len(),
{
    if current.len() > 0 {
        lemma_deficit_is_added(current.drop_first(), required.drop_first());
        assert(stats_max(current, required).drop_first() =~= stats_max(
            current.drop_first(),
            required.drop_first(),
        ));
    }
}

/// The points needed after the shrine are exactly the points that raising
/// the shrine's stats to the POST requirements adds.
pub proof fn law_points_needed_are_points_added(shrine: StatBlock, post: StatBlock)
    ensures
        deficit_total(shrine@, post@) == stat_sum(stats_max(shrine@, post@)) - stat_sum(shrine@),
{
    lemma_view_layout(shrine);
    lemma_view_layout(post);
    lemma_deficit_is_added(shrine@, post@);
}

/// Spreading points over some slots leaves every other slot as it was.
proof fn lemma_distribute_frame(stats: Seq<u8>, slots: Seq<int>, total: int, t: int)
    requires
        forall|i: int| 0 <= i < slots.len() ==> slots[i] != t && 0 <= slots[i] < stats.len(),
        0 <= t < stats.len(),
    ensures
        distribute(stats, slots, total)[t] == stats[t],
        distribute(stats, slots, total).len() == stats.len(),
    decreases total,
{
    if total > 0 {
        let lowest = min_above(stats, slots, -1);
        let above = min_above(stats, slots, lowest);
        let second = if above == 256 {
            lowest
        } else {
            above
        };
        let count = slots.len() as int;
        lemma_split_evenly_frame(stats, slots, total / count, total % count, t);
        if lowest != second {
            let lowest_count = count_equal(stats, slots, lowest);
            let difference = second - lowest;
            if lowest_count > 0 {
                lemma_raise_equal_frame(stats, slots, lowest, total / lowest_count, t);
            }
            if total >= lowest_count && difference > 0 && total >= difference * lowest_count {
                lemma_raise_equal_frame(stats, slots, lowest, difference, t);
                lemma_min_above_held(stats, slots, -1);
                assert(difference * lowest_count >= 1) by (nonlinear_arith)
                    requires
                        difference >= 1,
                        lowest_count >= 1,
                ;
                let raised = raise_equal(stats, slots, lowest, difference);
                lemma_distribute_frame(raised, slots, total - difference * lowest_count, t);
            }
        }
    }
}

/// A stat that is unused before the Shrine of Order stays unused after it.
pub proof fn law_shrine_keeps_unused_stats(pre: StatBlock, i: int)
    requires
        0 <= i < 16,
        pre@[i] == 0,
    ensures
        shrine_stats(pre@)[i] == 0,
{
    lemma_view_layout(pre);
    let p = pre@;
    let reduced = reduced_upto(p, 16);
    let slots = active_upto(p, 16);
    lemma_active_upto(p, 16);
    assert(reduced[i] == reduced_value(i, p[i]));
    if slots.len() > 0 {
        assert forall|k: int| 0 <= k < slots.len() implies slots[k] != i && 0 <= slots[k]
            < reduced.len() by {
            assert(p[slots[k]] >= 1);
        }
        lemma_distribute_frame(reduced, slots, pool_upto(p, 16), i);
    }
}

/// A best build found so far never leaves a negative number of points.
spec fn leaves_points(o: Option<Candidate>) -> bool {
    o matches Some(c) ==> c.0 >= 0
}

proof fn lemma_best_over_variants_leaves_points(
    best: Option<Candidate>,
    vs: Seq<Seq<u8>>,
    post: Seq<u8>,
)
    requires
        leaves_points(best),
    ensures
        leaves_points(best_over_variants(best, vs, post)),
    decreases vs.len(),
{
    if vs.len() > 0 {
        lemma_best_over_variants_leaves_points(best, vs.drop_last(), post);
        assert(leaves_points(variant_candidate(vs.last(), post)));
    }
}

proof fn lemma_best_upto_leaves_points(
    pres: Seq<StatBlock>,
    posts: Seq<StatBlock>,
    anys: Seq<StatBlock>,
    k: int,
)
    ensures
        leaves_points(best_upto(pres, posts, anys, k)),
    decreases k,
{
    if k > 0 {
        lemma_best_upto_leaves_points(pres, posts, anys, k - 1);
        let best = best_upto(pres, posts, anys, k - 1);
        let (pre, post) = combo_pre_post(pres, posts, anys, (k - 1) as usize);
        lemma_best_over_variants_leaves_points(best, zero_variants(pre, post), post);
    }
}

/// A build the optimizer finds never needs more points than there are.
pub proof fn law_optimized_build_leaves_points(prerequisites: Seq<OwnedTalentPrereq>)
    ensures
        optimize_outcome(prerequisites) matches Ok(c) ==> c.0 >= 0,
{
    lemma_best_upto_leaves_points(
        blocks_of(prerequisites, TalentCategory::Pre),
        blocks_of(prerequisites, TalentCategory::Post),
        blocks_of(prerequisites, TalentCategory::Any),
        combination_count(prerequisites),
    );
}

/// Expanding a slot keeps the first variant first, set to the first
/// candidate.
proof fn lemma_expand_slot_first(vs: Seq<Seq<u8>>, slot: int, cands: Seq<u8>)
    requires
        vs.len() >= 1,
        cands.len() >= 1,
    ensures
        expand_slot(vs, slot, cands).len() >= 1,
        expand_slot(vs, slot, cands)[0] == vs[0].update(slot, cands[0]),
    decreases vs.len(),
{
    let tail = cands.map_values(|c: u8| vs.last().update(slot, c));
    assert(tail[0] == vs.last().update(slot, cands[0]));
    if vs.len() > 1 {
        lemma_expand_slot_first(vs.drop_last(), slot, cands);
        let head = expand_slot(vs.drop_last(), slot, cands);
        assert((head + tail)[0] == head[0]);
        assert(vs.drop_last()[0] == vs[0]);
    } else {
        assert(expand_slot(vs.drop_last(), slot, cands) =~= Seq::<Seq<u8>>::empty());
        assert(expand_slot(vs, slot, cands) =~= tail);
        assert(vs.last() == vs[0]);
    }
}

proof fn lemma_variants_after_first(pre: Seq<u8>, post: Seq<u8>, k: int)
    requires
        pre.len() == 16,
        0 <= k <= zero_slots(pre, post).len(),
    ensures
        variants_after(pre, post, k).len() >= 1,
        variants_after(pre, post, k)[0] == pre,
    decreases k,
{
    if k > 0 {
        lemma_variants_after_first(pre, post, k - 1);
        lemma_zero_slots_upto(pre, post, 16);
        let slot = zero_slots(pre, post)[k - 1];
        assert(pre[slot] == 0);
        lemma_expand_slot_first(variants_after(pre, post, k - 1), slot, pre_candidates(post[slot]));
        assert(pre.update(slot, 0u8) =~= pre);
    }
}

/// The first PRE variant the optimizer tries is the PRE stats themselves.
pub proof fn law_first_variant_is_pre(pre: StatBlock, post: StatBlock)
    ensures
        zero_variants(pre@, post@).len() >= 1,
        zero_variants(pre@, post@)[0] == pre@,
{
    lemma_view_layout(pre);
    lemma_variants_after_first(pre@, post@, zero_slots(pre@, post@).len() as int);
}

/// True when no text occurs twice.
pub open spec fn no_repeats(s: Seq<Seq<char>>) -> bool {
    forall|a: int, b: int| 0 <= a < b < s.len() ==> s[a] != s[b]
}

proof fn lemma_first_occurrences(s: Seq<Seq<char>>)
    ensures
        no_repeats(first_occurrences(s)),
        forall|x: Seq<char>| s.contains(x) <==> first_occurrences(s).contains(x),
        no_repeats(s) ==> first_occurrences(s) == s,
    decreases s.len(),
{
    if s.len() > 0 {
        let rest = s.drop_last();
        lemma_first_occurrences(rest);
        let r = first_occurrences(rest);
        assert forall|x: Seq<char>| s.contains(x) <==> first_occurrences(s).contains(x) by {
            if s.contains(x) {
                let k = choose|k: int| 0 <= k < s.len() && s[k] == x;
                let f = first_occurrences(s);
                if k < rest.len() {
                    assert(rest[k] == x);
                    assert(rest.contains(x));
                    assert(r.contains(x));
                    let q = choose|q: int| 0 <= q < r.len() && r[q] == x;
                    if !r.contains(s.last()) {
                        assert(f[q] == x);
                    }
                    assert(f.contains(x));
                } else {
                    assert(x == s.last());
                    if !r.contains(s.last()) {
                        assert(f[r.len() as int] == x);
                    }
                    assert(f.contains(x));
                }
            }
            if first_occurrences(s).contains(x) {
                if r.contains(x) {
                    assert(rest.contains(x));
                    let k = choose|k: int| 0 <= k < rest.len() && rest[k] == x;
                    assert(s[k] == rest[k]);
                    assert(s.contains(x));
                } else {
                    assert(x == s.last());
                    assert(s[s.len() - 1] == x);
                }
            }
        }
        if no_repeats(s) {
            assert(no_repeats(rest));
            assert(!rest.contains(s.last())) by {
                if rest.contains(s.last()) {
                    let k = choose|k: int| 0 <= k < rest.len() && rest[k] == s.last();
                    assert(s[k] == s[s.len() - 1]);
                }
            }
            assert(s =~= rest.push(s.last()));
        }
    }
}

/// Removing repeated texts leaves no repeats, keeps every text that was
/// there and adds none, and doing it again changes nothing.
pub proof fn law_dedup_strings(items: Seq<Seq<char>>)
    ensures
        no_repeats(first_occurrences(items)),
        forall|x: Seq<char>| items.contains(x) <==> first_occurrences(items).contains(x),
        first_occurrences(first_occurrences(items)) == first_occurrences(items),
{
    lemma_first_occurrences(items);
    lemma_first_occurrences(first_occurrences(items));
}

/// An empty search lists every talent, in order.
pub proof fn law_empty_search_lists_all(talents: Seq<TalentView>, n: int)
    requires
        0 <= n <= talents.len(),
        n <= usize::MAX,
    ensures
        matching_indices(talents, Seq::empty(), n) == Seq::new(n as nat, |i: int| i as usize),
    decreases n,
{
    if n > 0 {
        law_empty_search_lists_all(talents, n - 1);
        assert(matching_indices(talents, Seq::empty(), n) =~= Seq::new(
            n as nat,
            |i: int| i as usize,
        ));
    }
}

/// True when every variant has as many stats as `floor` and asks, stat by
/// stat, at least what `floor` asks.
pub open spec fn asks_at_least(vs: Seq<VariantView>, floor: Seq<u8>) -> bool {
    &&& forall|k: int| 0 <= k < vs.len() ==> (#[trigger] vs[k]).stats.len() == floor.len()
    &&& forall|k: int, i: int|
        0 <= k < vs.len() && 0 <= i < floor.len() ==> #[trigger] vs[k].stats[i] >= floor[i]
}

/// Asking at least what a higher floor asks is asking at least what a lower
/// one asks.
proof fn lemma_asks_at_least_lower(vs: Seq<VariantView>, high: Seq<u8>, low: Seq<u8>)
    requires
        asks_at_least(vs, high),
        high.len() == low.len(),
        forall|i: int| 0 <= i < low.len() ==> high[i] >= low[i],
    ensures
        asks_at_least(vs, low),
{
    assert forall|k: int, i: int| 0 <= k < vs.len() && 0 <= i < low.len() implies #[trigger] vs[k].stats[i]
        >= low[i] by {
        assert(vs[k].stats[i] >= high[i]);
    }
}

/// Asking at least a floor survives concatenation.
proof fn lemma_asks_at_least_add(a: Seq<VariantView>, b: Seq<VariantView>, floor: Seq<u8>)
    requires
        asks_at_least(a, floor),
        asks_at_least(b, floor),
    ensures
        asks_at_least(a + b, floor),
{
    assert forall|k: int| 0 <= k < (a + b).len() implies (#[trigger] (a + b)[k]).stats.len()
        == floor.len() by {
        if k < a.len() {
            assert((a + b)[k] == a[k]);
        } else {
            assert((a + b)[k] == b[k - a.len()]);
        }
    }
    assert forall|k: int, i: int| 0 <= k < (a + b).len() && 0 <= i < floor.len() implies #[trigger] (a
        + b)[k].stats[i] >= floor[i] by {
        if k < a.len() {
            assert((a + b)[k] == a[k]);
            assert(a[k].stats[i] >= floor[i]);
        } else {
            assert((a + b)[k] == b[k - a.len()]);
            assert(b[k - a.len()].stats[i] >= floor[i]);
        }
    }
}

/// Raising one stat never lowers any.
proof fn lemma_raise_no_lower(stats: Seq<u8>, slot: int, value: u8)
    requires
        0 <= slot < stats.len(),
    ensures
        raise(stats, slot, value).len() == stats.len(),
        forall|i: int| 0 <= i < stats.len() ==> raise(stats, slot, value)[i] >= stats[i],
{
}

proof fn lemma_group_fan_no_lower(
    vs: Seq<VariantView>,
    labels: Seq<Seq<char>>,
    offset: int,
    value: u8,
    nested_or: bool,
    floor: Seq<u8>,
)
    requires
        asks_at_least(vs, floor),
        0 <= offset,
        offset + labels.len() <= floor.len(),
    ensures
        asks_at_least(group_fan(vs, labels, offset, value, nested_or), floor),
    decreases vs.len(),
{
    if vs.len() > 0 {
        assert(asks_at_least(vs.drop_last(), floor)) by {
            assert forall|k: int| 0 <= k < vs.drop_last().len() implies (#[trigger] vs.drop_last()[k]).stats.len()
                == floor.len() by {
                assert(vs.drop_last()[k] == vs[k]);
            }
            assert forall|k: int, i: int| 0 <= k < vs.drop_last().len() && 0 <= i < floor.len() implies #[trigger] vs.drop_last()[k].stats[i]
                >= floor[i] by {
                assert(vs.drop_last()[k] == vs[k]);
            }
        }
        lemma_group_fan_no_lower(vs.drop_last(), labels, offset, value, nested_or, floor);
        let v = vs.last();
        assert(v == vs[vs.len() - 1]);
        let choices = group_choices(v, labels, offset, value, nested_or);
        assert forall|k: int| 0 <= k < choices.len() implies (#[trigger] choices[k]).stats.len()
            == floor.len() by {
            lemma_raise_no_lower(v.stats, offset + k, value);
        }
        assert forall|k: int, i: int| 0 <= k < choices.len() && 0 <= i < floor.len() implies #[trigger] choices[k].stats[i]
            >= floor[i] by {
            lemma_raise_no_lower(v.stats, offset + k, value);
            assert(v.stats[i] >= floor[i]);
        }
        lemma_asks_at_least_add(
            group_fan(vs.drop_last(), labels, offset, value, nested_or),
            choices,
            floor,
        );
    }
}

proof fn lemma_stat_step_no_lower(vs: Seq<VariantView>, label: Seq<char>, value: u8, nested_or: bool, floor: Seq<u8>)
    requires
        asks_at_least(vs, floor),
        floor.len() == 16,
    ensures
        asks_at_least(stat_step(vs, label, value, nested_or), floor),
{
    match stat_group(label) {
        Some((names, offset)) => {
            lemma_group_fan_no_lower(vs, names, offset, value, nested_or, floor);
        },
        None => {
            let r = vs.map_values(|v: VariantView| chip_choice(v, label, value, nested_or));
            assert forall|k: int| 0 <= k < r.len() implies (#[trigger] r[k]).stats.len() == floor.len() by {
                assert(r[k] == chip_choice(vs[k], label, value, nested_or));
                if let Some(slot) = chip_slot(label) {
                    lemma_raise_no_lower(vs[k].stats, slot, value);
                }
            }
            assert forall|k: int, i: int| 0 <= k < r.len() && 0 <= i < floor.len() implies #[trigger] r[k].stats[i]
                >= floor[i] by {
                assert(r[k] == chip_choice(vs[k], label, value, nested_or));
                assert(vs[k].stats[i] >= floor[i]);
                if let Some(slot) = chip_slot(label) {
                    lemma_raise_no_lower(vs[k].stats, slot, value);
                }
            }
        },
    }
}

proof fn lemma_stats_phase_no_lower(
    root: Seq<JsonValue>,
    stat_map: Seq<(String, JsonValue)>,
    vs: Seq<VariantView>,
    nested_or: bool,
    floor: Seq<u8>,
)
    requires
        asks_at_least(vs, floor),
        floor.len() == 16,
    ensures
        asks_at_least(stats_phase(root, stat_map, vs, nested_or), floor),
    decreases stat_map.len(),
{
    if stat_map.len() > 0 {
        lemma_stats_phase_no_lower(root, stat_map.drop_last(), vs, nested_or, floor);
        let prev = stats_phase(root, stat_map.drop_last(), vs, nested_or);
        if let Some(value) = json_u8(root, stat_map.last().1) {
            lemma_stat_step_no_lower(prev, stat_map.last().0@, value, nested_or, floor);
        }
    }
}

proof fn lemma_note_phase_no_lower(
    vs: Seq<VariantView>,
    notes: Seq<Option<Seq<char>>>,
    nested_or: bool,
    floor: Seq<u8>,
)
    requires
        asks_at_least(vs, floor),
    ensures
        asks_at_least(note_phase(vs, notes, nested_or), floor),
    decreases notes.len(),
{
    if notes.len() > 0 {
        lemma_note_phase_no_lower(vs, notes.drop_last(), nested_or, floor);
        let prev = note_phase(vs, notes.drop_last(), nested_or);
        if let Some(t) = notes.last() {
            let r = prev.map_values(|v: VariantView| with_note(v, nested_or, t));
            assert forall|k: int| 0 <= k < r.len() implies (#[trigger] r[k]).stats.len() == floor.len() by {
                assert(r[k].stats == prev[k].stats);
            }
            assert forall|k: int, i: int| 0 <= k < r.len() && 0 <= i < floor.len() implies #[trigger] r[k].stats[i]
                >= floor[i] by {
                assert(r[k].stats == prev[k].stats);
                assert(prev[k].stats[i] >= floor[i]);
            }
        }
    }
}

proof fn lemma_listed_no_lower(
    root: Seq<JsonValue>,
    req: Seq<(String, JsonValue)>,
    base: VariantView,
    nested_or: bool,
)
    requires
        base.stats.len() == 16,
    ensures
        asks_at_least(listed_variants(root, req, base, nested_or), base.stats),
{
    let start = seq![base];
    assert(asks_at_least(start, base.stats)) by {
        assert forall|k: int| 0 <= k < start.len() implies (#[trigger] start[k]).stats.len()
            == base.stats.len() by {
            assert(start[k] == base);
        }
        assert forall|k: int, i: int| 0 <= k < start.len() && 0 <= i < base.stats.len() implies #[trigger] start[k].stats[i]
            >= base.stats[i] by {
            assert(start[k] == base);
        }
    }
    let after_stats = match member(req, "stats"@) {
        Some(sv) => match json_object(root, sv) {
            Some(m) => stats_phase(root, m, start, nested_or),
            None => start,
        },
        None => start,
    };
    if let Some(sv) = member(req, "stats"@) {
        if let Some(m) = json_object(root, sv) {
            lemma_stats_phase_no_lower(root, m, start, nested_or, base.stats);
        }
    }
    lemma_note_phase_no_lower(after_stats, requirement_notes(root, req), nested_or, base.stats);
}

proof fn lemma_expand_no_lower(
    root: Seq<JsonValue>,
    req: Seq<(String, JsonValue)>,
    base: VariantView,
    nested_or: bool,
    fuel: nat,
)
    requires
        base.stats.len() == 16,
    ensures
        expand_spec(root, req, base, nested_or, fuel) matches Some(r) ==> asks_at_least(r, base.stats),
    decreases fuel, 2nat, 0nat,
{
    let vs = listed_variants(root, req, base, nested_or);
    lemma_listed_no_lower(root, req, base, nested_or);
    if let Some(ov) = member(req, "or"@) {
        if let Some(options) = json_array(root, ov) {
            lemma_alternatives_no_lower(root, vs, options, fuel, base.stats);
        }
    }
}

proof fn lemma_alternatives_no_lower(
    root: Seq<JsonValue>,
    vs: Seq<VariantView>,
    options: Seq<JsonValue>,
    fuel: nat,
    floor: Seq<u8>,
)
    requires
        asks_at_least(vs, floor),
        floor.len() == 16,
    ensures
        alternatives(root, vs, options, fuel) matches Some(r) ==> asks_at_least(r, floor),
    decreases fuel, 1nat, vs.len(),
{
    if vs.len() > 0 {
        assert(asks_at_least(vs.drop_last(), floor)) by {
            assert forall|k: int| 0 <= k < vs.drop_last().len() implies (#[trigger] vs.drop_last()[k]).stats.len()
                == floor.len() by {
                assert(vs.drop_last()[k] == vs[k]);
            }
            assert forall|k: int, i: int| 0 <= k < vs.drop_last().len() && 0 <= i < floor.len() implies #[trigger] vs.drop_last()[k].stats[i]
                >= floor[i] by {
                assert(vs.drop_last()[k] == vs[k]);
            }
        }
        lemma_alternatives_no_lower(root, vs.drop_last(), options, fuel, floor);
        let v = vs.last();
        assert(v == vs[vs.len() - 1]);
        assert(v.stats.len() == 16);
        lemma_options_no_lower(root, v, options, fuel);
        if let Some(a) = alternatives(root, vs.drop_last(), options, fuel) {
            if let Some(b) = option_variants(root, v, options, fuel) {
                assert forall|i: int| 0 <= i < floor.len() implies v.stats[i] >= floor[i] by {
                    assert(vs[vs.len() - 1].stats[i] >= floor[i]);
                }
                lemma_asks_at_least_lower(b, v.stats, floor);
                lemma_asks_at_least_add(a, b, floor);
            }
        }
    }
}

proof fn lemma_options_no_lower(root: Seq<JsonValue>, v: VariantView, options: Seq<JsonValue>, fuel: nat)
    requires
        v.stats.len() == 16,
    ensures
        option_variants(root, v, options, fuel) matches Some(r) ==> asks_at_least(r, v.stats),
    decreases fuel, 0nat, options.len(),
{
    if options.len() > 0 {
        lemma_options_no_lower(root, v, options.drop_last(), fuel);
        if let Some(a) = option_variants(root, v, options.drop_last(), fuel) {
            match json_object(root, options.last()) {
                Some(m) => {
                    if fuel > 0 {
                        lemma_expand_no_lower(root, m, v, true, (fuel - 1) as nat);
                        if let Some(b) = expand_spec(root, m, v, true, (fuel - 1) as nat) {
                            lemma_asks_at_least_add(a, b, v.stats);
                        }
                    }
                },
                None => {
                    if let Some(t) = json_text(root, options.last()) {
                        let c = text_choice(v, t);
                        let one = seq![c];
                        assert(asks_at_least(one, v.stats)) by {
                            assert forall|k: int| 0 <= k < one.len() implies (#[trigger] one[k]).stats.len()
                                == v.stats.len() by {
                                assert(one[k] == c);
                            }
                            assert forall|k: int, i: int| 0 <= k < one.len() && 0 <= i < v.stats.len() implies #[trigger] one[k].stats[i]
                                >= v.stats[i] by {
                                assert(one[k] == c);
                            }
                        }
                        lemma_asks_at_least_add(a, one, v.stats);
                        assert(a.push(c) =~= a + one);
                    }
                },
            }
        }
    }
}

/// Every variant a requirements object gives asks, stat by stat, at least
/// what the variant it started from asks: requirements only ever raise
/// stats.
pub proof fn law_variants_never_ask_less(
    root: Seq<JsonValue>,
    req: Seq<(String, JsonValue)>,
    base: RequirementVariant,
    nested_or: bool,
)
    requires
        nesting_ends(root, req),
    ensures
        asks_at_least(expanded_variants(root, req, base@, nested_or), base@.stats),
{
    lemma_view_layout(base.stats);
    lemma_expand_no_lower(root, req, base@, nested_or, nesting_depth(root, req));
    if expand_spec(root, req, base@, nested_or, nesting_depth(root, req)) is None {
        assert(asks_at_least(Seq::<VariantView>::empty(), base@.stats));
    }
}

/// Once the minimums follow from the chosen talents, the stat targets are
/// the minimums themselves.
pub proof fn law_targets_start_at_minimums(app: DeepwokenApp)
    requires
        app.minimums_hold(),
    ensures
        app.pre_stats@ == app.min_pre@,
        app.post_stats@ == app.min_post@,
{
    lemma_view_layout(app.min_pre);
    lemma_view_layout(app.min_post);
    assert(app.pre_stats@ =~= app.min_pre@);
    assert(app.post_stats@ =~= app.min_post@);
}

/// Adding a talent to the chosen list and then removing the chosen talent
/// that adding selects gives back the list as it was.
pub proof fn law_add_then_remove_restores(
    before: Seq<SelectedTalent>,
    added: Seq<SelectedTalent>,
    removed: Seq<SelectedTalent>,
)
    requires
        added.len() == before.len() + 1,
        added.drop_last() == before,
        removed == added.remove(before.len() as int),
    ensures
        removed == before,
{
    assert(removed =~= before);
}

/// Talents are listed in a strict total order: none before itself, never
/// both ways round, transitively, and any two with different keys one way or
/// the other.
pub proof fn law_listing_order_is_strict_total(x: TalentView, y: TalentView, z: TalentView)
    ensures
        !talent_before(x, x),
        talent_before(x, y) ==> !talent_before(y, x),
        talent_before(x, y) && talent_before(y, z) ==> talent_before(x, z),
        x.key != y.key ==> talent_before(x, y) || talent_before(y, x),
{
    lemma_text_less_irreflexive(x.name);
    lemma_text_less_irreflexive(x.key);
    if talent_before(x, y) {
        lemma_talent_before_asymmetric(x, y);
        if talent_before(y, z) {
            lemma_talent_before_transitive(x, y, z);
        }
    }
    if x.key != y.key {
        lemma_talent_before_total(x, y);
    }
}

/// The points a build leaves, if there is one.
pub open spec fn candidate_points(o: Option<Candidate>) -> int {
    match o {
        Some(c) => c.0,
        None => 0,
    }
}

/// True when a best build has been found that leaves at least `points`.
spec fn reaches(o: Option<Candidate>, points: int) -> bool {
    o matches Some(c) && c.0 >= points
}

proof fn lemma_improve_reaches(best: Option<Candidate>, c: Option<Candidate>, points: int)
    ensures
        reaches(best, points) ==> reaches(improve(best, c), points),
        c matches Some(x) ==> reaches(improve(best, c), x.0),
{
}

proof fn lemma_best_over_variants_reaches(
    best: Option<Candidate>,
    vs: Seq<Seq<u8>>,
    post: Seq<u8>,
    points: int,
)
    ensures
        reaches(best, points) ==> reaches(best_over_variants(best, vs, post), points),
        forall|i: int|
            0 <= i < vs.len() && (#[trigger] variant_candidate(vs[i], post)) is Some ==> reaches(
                best_over_variants(best, vs, post),
                candidate_points(variant_candidate(vs[i], post)),
            ),
    decreases vs.len(),
{
    if vs.len() > 0 {
        let rest = vs.drop_last();
        let prev = best_over_variants(best, rest, post);
        let c = variant_candidate(vs.last(), post);
        lemma_best_over_variants_reaches(best, rest, post, points);
        lemma_improve_reaches(prev, c, points);
        assert forall|i: int|
            0 <= i < vs.len() && (#[trigger] variant_candidate(vs[i], post)) is Some implies reaches(
                best_over_variants(best, vs, post),
                candidate_points(variant_candidate(vs[i], post)),
            ) by {
            let x = candidate_points(variant_candidate(vs[i], post));
            if i < rest.len() {
                assert(rest[i] == vs[i]);
                lemma_best_over_variants_reaches(best, rest, post, x);
                lemma_improve_reaches(prev, c, x);
            } else {
                assert(vs[i] == vs.last());
                lemma_improve_reaches(prev, c, x);
            }
        }
    }
}

proof fn lemma_best_upto_reaches(
    pres: Seq<StatBlock>,
    posts: Seq<StatBlock>,
    anys: Seq<StatBlock>,
    k: int,
    combo: int,
    v: Seq<u8>,
)
    requires
        0 <= combo < k,
        combo <= usize::MAX,
        ({
            let (pre, post) = combo_pre_post(pres, posts, anys, combo as usize);
            &&& !impossible_pair(pre, post)
            &&& zero_variants(pre, post).contains(v)
            &&& variant_candidate(v, post) is Some
        }),
    ensures
        ({
            let (pre, post) = combo_pre_post(pres, posts, anys, combo as usize);
            reaches(best_upto(pres, posts, anys, k), candidate_points(variant_candidate(v, post)))
        }),
    decreases k,
{
    let (pre, post) = combo_pre_post(pres, posts, anys, combo as usize);
    let points = candidate_points(variant_candidate(v, post));
    let prev = best_upto(pres, posts, anys, k - 1);
    let (pre_k, post_k) = combo_pre_post(pres, posts, anys, (k - 1) as usize);
    if combo < k - 1 {
        lemma_best_upto_reaches(pres, posts, anys, k - 1, combo, v);
        lemma_best_over_variants_reaches(prev, zero_variants(pre_k, post_k), post_k, points);
    } else {
        let vs = zero_variants(pre, post);
        let i = choose|i: int| 0 <= i < vs.len() && vs[i] == v;
        lemma_best_over_variants_reaches(prev, vs, post, points);
        assert(variant_candidate(vs[i], post) is Some);
    }
}

/// The optimizer answers with a build whenever one of the PRE variants of
/// one of its combinations gives one, and the build it answers leaves at
/// least as many points as every such build.
pub proof fn law_optimized_build_is_best(prerequisites: Seq<OwnedTalentPrereq>, combo: int, v: Seq<u8>)
    requires
        !too_many_any(prerequisites),
        0 <= combo < combination_count(prerequisites),
        ({
            let (pre, post) = combo_pre_post(
                blocks_of(prerequisites, TalentCategory::Pre),
                blocks_of(prerequisites, TalentCategory::Post),
                blocks_of(prerequisites, TalentCategory::Any),
                combo as usize,
            );
            &&& !impossible_pair(pre, post)
            &&& zero_variants(pre, post).contains(v)
            &&& variant_candidate(v, post) is Some
        }),
    ensures
        ({
            let (pre, post) = combo_pre_post(
                blocks_of(prerequisites, TalentCategory::Pre),
                blocks_of(prerequisites, TalentCategory::Post),
                blocks_of(prerequisites, TalentCategory::Any),
                combo as usize,
            );
            optimize_outcome(prerequisites) matches Ok(c) && c.0 >= candidate_points(variant_candidate(v, post))
        }),
{
    lemma_best_upto_reaches(
        blocks_of(prerequisites, TalentCategory::Pre),
        blocks_of(prerequisites, TalentCategory::Post),
        blocks_of(prerequisites, TalentCategory::Any),
        combination_count(prerequisites),
        combo,
        v,
    );
}

proof fn lemma_stats_phase_nonempty(
    root: Seq<JsonValue>,
    stat_map: Seq<(String, JsonValue)>,
    vs: Seq<VariantView>,
    nested_or: bool,
)
    requires
        vs.len() >= 1,
    ensures
        stats_phase(root, stat_map, vs, nested_or).len() >= 1,
    decreases stat_map.len(),
{
    if stat_map.len() > 0 {
        lemma_stats_phase_nonempty(root, stat_map.drop_last(), vs, nested_or);
        let prev = stats_phase(root, stat_map.drop_last(), vs, nested_or);
        if let Some(value) = json_u8(root, stat_map.last().1) {
            let label = stat_map.last().0@;
            if let Some((names, offset)) = stat_group(label) {
                assert(names.len() >= 1);
                let tail = group_choices(prev.last(), names, offset, value, nested_or);
                assert(tail.len() >= 1);
                assert(group_fan(prev, names, offset, value, nested_or).len() >= tail.len());
            }
        }
    }
}

proof fn lemma_note_phase_len(vs: Seq<VariantView>, notes: Seq<Option<Seq<char>>>, nested_or: bool)
    ensures
        note_phase(vs, notes, nested_or).len() == vs.len(),
    decreases notes.len(),
{
    if notes.len() > 0 {
        lemma_note_phase_len(vs, notes.drop_last(), nested_or);
    }
}

proof fn lemma_listed_nonempty(
    root: Seq<JsonValue>,
    req: Seq<(String, JsonValue)>,
    base: VariantView,
    nested_or: bool,
)
    ensures
        listed_variants(root, req, base, nested_or).len() >= 1,
{
    let start = seq![base];
    let after_stats = match member(req, "stats"@) {
        Some(sv) => match json_object(root, sv) {
            Some(m) => stats_phase(root, m, start, nested_or),
            None => start,
        },
        None => start,
    };
    if let Some(sv) = member(req, "stats"@) {
        if let Some(m) = json_object(root, sv) {
            lemma_stats_phase_nonempty(root, m, start, nested_or);
        }
    }
    lemma_note_phase_len(after_stats, requirement_notes(root, req), nested_or);
}

proof fn lemma_expand_gives_variants(
    root: Seq<JsonValue>,
    req: Seq<(String, JsonValue)>,
    base: VariantView,
    nested_or: bool,
    fuel: nat,
)
    requires
        req_nesting_ends(root, req, fuel),
    ensures
        expand_spec(root, req, base, nested_or, fuel) is Some,
        !has_alternatives(root, req) ==> (expand_spec(root, req, base, nested_or, fuel) matches Some(
            r,
        ) && r.len() >= 1),
    decreases fuel, 2nat, 0nat,
{
    let vs = listed_variants(root, req, base, nested_or);
    lemma_listed_nonempty(root, req, base, nested_or);
    if let Some(ov) = member(req, "or"@) {
        if let Some(options) = json_array(root, ov) {
            lemma_alternatives_defined(root, vs, options, fuel);
        }
    }
}

proof fn lemma_alternatives_defined(
    root: Seq<JsonValue>,
    vs: Seq<VariantView>,
    options: Seq<JsonValue>,
    fuel: nat,
)
    requires
        forall|j: int|
            0 <= j < options.len() ==> match json_object(root, #[trigger] options[j]) {
                Some(m) => if fuel > 0 {
                    req_nesting_ends(root, m, (fuel - 1) as nat)
                } else {
                    false
                },
                None => true,
            },
    ensures
        alternatives(root, vs, options, fuel) is Some,
    decreases fuel, 1nat, vs.len(),
{
    if vs.len() > 0 {
        lemma_alternatives_defined(root, vs.drop_last(), options, fuel);
        lemma_options_defined(root, vs.last(), options, fuel);
    }
}

proof fn lemma_options_defined(root: Seq<JsonValue>, v: VariantView, options: Seq<JsonValue>, fuel: nat)
    requires
        forall|j: int|
            0 <= j < options.len() ==> match json_object(root, #[trigger] options[j]) {
                Some(m) => if fuel > 0 {
                    req_nesting_ends(root, m, (fuel - 1) as nat)
                } else {
                    false
                },
                None => true,
            },
    ensures
        option_variants(root, v, options, fuel) is Some,
    decreases fuel, 0nat, options.len(),
{
    if options.len() > 0 {
        let rest = options.drop_last();
        assert forall|j: int| 0 <= j < rest.len() implies match json_object(root, #[trigger] rest[j]) {
            Some(m) => if fuel > 0 {
                req_nesting_ends(root, m, (fuel - 1) as nat)
            } else {
                false
            },
            None => true,
        } by {
            assert(rest[j] == options[j]);
        }
        lemma_options_defined(root, v, rest, fuel);
        assert(options.last() == options[options.len() - 1]);
        if let Some(m) = json_object(root, options.last()) {
            lemma_expand_gives_variants(root, m, v, true, (fuel - 1) as nat);
        }
    }
}

/// True when a requirements object has a list of alternatives.
pub open spec fn has_alternatives(root: Seq<JsonValue>, req: Seq<(String, JsonValue)>) -> bool {
    member(req, "or"@) matches Some(ov) && json_array(root, ov) is Some
}

/// A requirements object without a list of alternatives gives at least one
/// variant: every talent entry whose requirements offer no alternatives
/// gives at least one talent.
pub proof fn law_requirements_without_alternatives_give_a_variant(
    root: Seq<JsonValue>,
    req: Seq<(String, JsonValue)>,
    base: RequirementVariant,
    nested_or: bool,
)
    requires
        nesting_ends(root, req),
        !has_alternatives(root, req),
    ensures
        expanded_variants(root, req, base@, nested_or).len() >= 1,
{
    lemma_expand_gives_variants(root, req, base@, nested_or, nesting_depth(root, req));
}

/// What `first_from` finds is an occurrence with none before it.
proof fn lemma_first_from_found(hay: Seq<char>, needle: Seq<char>, i: int)
    ensures
        first_from(hay, needle, i) matches Some(k) ==> i <= k && occurs_at(hay, needle, k) && forall|
            j: int,
        | i <= j < k ==> !occurs_at(hay, needle, j),
    decreases hay.len() + 1 - i,
{
    if 0 <= i <= hay.len() && !occurs_at(hay, needle, i) {
        lemma_first_from_found(hay, needle, i + 1);
    }
}

/// The Nuxt payload follows the opening tag and ends at the first closing
/// script tag after it, so it holds no closing script tag itself.
pub proof fn law_payload_ends_at_first_closing_tag(html: Seq<char>)
    ensures
        nuxt_payload(html) matches Ok(p) ==> !occurs_in(p, SCRIPT_END_MARKER@) && occurs_in(
            html,
            NUXT_START_MARKER@ + p + SCRIPT_END_MARKER@,
        ),
{
    let start_marker = NUXT_START_MARKER@;
    let end_marker = SCRIPT_END_MARKER@;
    lemma_first_from_found(html, start_marker, 0);
    if let Some(start) = first_from(html, start_marker, 0) {
        let content_start = start + start_marker.len();
        lemma_first_from_found(html, end_marker, content_start);
        if let Some(end) = first_from(html, end_marker, content_start) {
            let p = html.subrange(content_start, end);
            reveal_strlit("</script>");
            assert(end_marker.len() == 9);
            assert forall|q: int| !occurs_at(p, end_marker, q) by {
                if occurs_at(p, end_marker, q) {
                    assert(content_start <= content_start + q < end);
                    assert(p.subrange(q, q + end_marker.len()) =~= html.subrange(
                        content_start + q,
                        content_start + q + end_marker.len(),
                    ));
                    assert(occurs_at(html, end_marker, content_start + q));
                }
            }
            let whole = start_marker + p + end_marker;
            assert(html.subrange(start, start + whole.len()) =~= whole);
            assert(occurs_at(html, whole, start));
        }
    }
}

proof fn lemma_listings_agree_upto(t: Seq<TalentView>, r: Seq<TalentView>, k: int)
    requires
        listed_from(r, r),
        listed_from(t, r),
        0 <= k <= t.len(),
        k <= r.len(),
    ensures
        forall|j: int| 0 <= j < k ==> t[j] == r[j],
    decreases k,
{
    if k > 0 {
        let m = k - 1;
        lemma_listings_agree_upto(t, r, m);
        assert(is_last_copy(r, t[m]));
        let i = choose|i: int| #![trigger r[i]] last_of_key(r, i) && r[i] == t[m];
        assert forall|j: int| m < j < r.len() implies r[j].key != r[m].key by {
            assert(r[m].key != r[j].key);
        }
        assert(last_of_key(r, m));
        let a = choose|a: int| 0 <= a < t.len() && #[trigger] t[a] == r[m];
        if i < m {
            assert(t[i] == r[i]);
            assert(t[i].key != t[m].key);
        }
        if a < m {
            assert(t[a] == r[a]);
            assert(r[a].key != r[m].key);
        }
        if i > m {
            assert(talent_before(r[m], r[i]));
            if a == m {
                assert(r[m].key != r[i].key);
            } else {
                assert(talent_before(t[m], t[a]));
                lemma_talent_before_asymmetric(r[m], r[i]);
            }
        }
    }
}

/// De-duplicating and sorting a talent list that is already de-duplicated
/// and sorted gives it back unchanged: the talents read back from the cache
/// are the talents written to it.
pub proof fn law_listing_twice_changes_nothing(
    s: Seq<TalentView>,
    r: Seq<TalentView>,
    t: Seq<TalentView>,
)
    requires
        listed_from(r, s),
        listed_from(t, r),
    ensures
        t == r,
{
    assert(listed_from(r, r)) by {
        assert forall|a: int| 0 <= a < r.len() implies is_last_copy(r, #[trigger] r[a]) by {
            assert forall|j: int| a < j < r.len() implies r[j].key != r[a].key by {
                assert(r[a].key != r[j].key);
            }
            assert(last_of_key(r, a));
        }
        assert forall|i: int| last_of_key(r, i) implies exists|a: int|
            0 <= a < r.len() && #[trigger] r[a] == r[i] by {
            assert(r[i] == r[i]);
        }
    }
    if t.len() > r.len() {
        lemma_listings_agree_upto(t, r, r.len() as int);
        let n = r.len() as int;
        assert(is_last_copy(r, t[n]));
        let i = choose|i: int| #![trigger r[i]] last_of_key(r, i) && r[i] == t[n];
        assert(t[i] == r[i]);
        assert(t[i].key != t[n].key);
    } else if t.len() < r.len() {
        lemma_listings_agree_upto(t, r, t.len() as int);
        let n = t.len() as int;
        assert forall|j: int| n < j < r.len() implies r[j].key != r[n].key by {
            assert(r[n].key != r[j].key);
        }
        assert(last_of_key(r, n));
        let a = choose|a: int| 0 <= a < t.len() && #[trigger] t[a] == r[n];
        assert(t[a] == r[a]);
        assert(r[a].key != r[n].key);
    } else {
        lemma_listings_agree_upto(t, r, t.len() as int);
        assert(t =~= r);
    }
}

/// What a PRE block demands of stat `i` after the shrine.
spec fn derived_demand(b: StatBlock, i: int) -> u8 {
    derived_post(zero_stats(), b@)[i]
}

proof fn lemma_derived_post_is_max(q: Seq<u8>, b: StatBlock, i: int)
    requires
        q.len() == 16,
        0 <= i < 16,
    ensures
        derived_post(q, b@).len() == 16,
        derived_post(q, b@)[i] == max_u8(q[i], derived_demand(b, i)),
{
    lemma_view_layout(b);
}

proof fn lemma_fold_max_value(base: Seq<u8>, bs: Seq<StatBlock>, i: int)
    requires
        base.len() == 16,
        0 <= i < 16,
    ensures
        fold_max(base, bs).len() == 16,
        fold_max(base, bs)[i] >= base[i],
        forall|k: int| 0 <= k < bs.len() ==> fold_max(base, bs)[i] >= (#[trigger] bs[k])@[i],
        fold_max(base, bs)[i] == base[i] || exists|k: int|
            0 <= k < bs.len() && fold_max(base, bs)[i] == (#[trigger] bs[k])@[i],
    decreases bs.len(),
{
    if bs.len() > 0 {
        let rest = bs.drop_last();
        lemma_fold_max_value(base, rest, i);
        lemma_view_layout(bs.last());
        assert forall|k: int| 0 <= k < bs.len() implies fold_max(base, bs)[i] >= (
        #[trigger] bs[k])@[i] by {
            if k < rest.len() {
                assert(rest[k] == bs[k]);
            }
        }
        if fold_max(base, bs)[i] != base[i] {
            if fold_max(base, bs)[i] == bs.last()@[i] {
                assert(bs[bs.len() - 1] == bs.last());
            } else {
                let k = choose|k: int| 0 <= k < rest.len() && fold_max(base, rest)[i] == (
                #[trigger] rest[k])@[i];
                assert(rest[k] == bs[k]);
            }
        }
    }
}

proof fn lemma_fold_derived_value(base: Seq<u8>, bs: Seq<StatBlock>, i: int)
    requires
        base.len() == 16,
        0 <= i < 16,
    ensures
        fold_derived(base, bs).len() == 16,
        fold_derived(base, bs)[i] >= base[i],
        forall|k: int| 0 <= k < bs.len() ==> fold_derived(base, bs)[i] >= derived_demand(
            #[trigger] bs[k],
            i,
        ),
        fold_derived(base, bs)[i] == base[i] || exists|k: int|
            0 <= k < bs.len() && fold_derived(base, bs)[i] == derived_demand(#[trigger] bs[k], i),
    decreases bs.len(),
{
    if bs.len() > 0 {
        let rest = bs.drop_last();
        lemma_fold_derived_value(base, rest, i);
        lemma_derived_post_is_max(fold_derived(base, rest), bs.last(), i);
        assert forall|k: int| 0 <= k < bs.len() implies fold_derived(base, bs)[i] >= derived_demand(
            #[trigger] bs[k],
            i,
        ) by {
            if k < rest.len() {
                assert(rest[k] == bs[k]);
            }
        }
        if fold_derived(base, bs)[i] != base[i] {
            if fold_derived(base, bs)[i] == derived_demand(bs.last(), i) {
                assert(bs[bs.len() - 1] == bs.last());
            } else {
                let k = choose|k: int|
                    0 <= k < rest.len() && fold_derived(base, rest)[i] == derived_demand(
                        #[trigger] rest[k],
                        i,
                    );
                assert(rest[k] == bs[k]);
            }
        }
    }
}

/// True when two lists of blocks hold the same blocks, whatever their order
/// and repetitions.
pub open spec fn same_blocks(a: Seq<StatBlock>, b: Seq<StatBlock>) -> bool {
    forall|x: StatBlock| a.contains(x) <==> b.contains(x)
}

proof fn lemma_same_blocks_same_folds(base: Seq<u8>, a: Seq<StatBlock>, b: Seq<StatBlock>)
    requires
        base.len() == 16,
        same_blocks(a, b),
    ensures
        fold_max(base, a) == fold_max(base, b),
        fold_derived(base, a) == fold_derived(base, b),
{
    assert forall|i: int| 0 <= i < 16 implies fold_max(base, a)[i] == fold_max(base, b)[i]
        && fold_derived(base, a)[i] == fold_derived(base, b)[i] by {
        lemma_fold_max_value(base, a, i);
        lemma_fold_max_value(base, b, i);
        lemma_fold_derived_value(base, a, i);
        lemma_fold_derived_value(base, b, i);
        let va = fold_max(base, a)[i];
        let vb = fold_max(base, b)[i];
        if va != base[i] {
            let k = choose|k: int| 0 <= k < a.len() && va == (#[trigger] a[k])@[i];
            assert(a.contains(a[k]));
            let m = choose|m: int| 0 <= m < b.len() && b[m] == a[k];
            assert(vb >= b[m]@[i]);
        }
        if vb != base[i] {
            let k = choose|k: int| 0 <= k < b.len() && vb == (#[trigger] b[k])@[i];
            assert(b.contains(b[k]));
            let m = choose|m: int| 0 <= m < a.len() && a[m] == b[k];
            assert(va >= a[m]@[i]);
        }
        let da = fold_derived(base, a)[i];
        let db = fold_derived(base, b)[i];
        if da != base[i] {
            let k = choose|k: int| 0 <= k < a.len() && da == derived_demand(#[trigger] a[k], i);
            assert(a.contains(a[k]));
            let m = choose|m: int| 0 <= m < b.len() && b[m] == a[k];
            assert(db >= derived_demand(b[m], i));
        }
        if db != base[i] {
            let k = choose|k: int| 0 <= k < b.len() && db == derived_demand(#[trigger] b[k], i);
            assert(b.contains(b[k]));
            let m = choose|m: int| 0 <= m < a.len() && a[m] == b[k];
            assert(da >= derived_demand(a[m], i));
        }
    }
    lemma_fold_max_value(base, a, 0);
    lemma_fold_max_value(base, b, 0);
    lemma_fold_derived_value(base, a, 0);
    lemma_fold_derived_value(base, b, 0);
    assert(fold_max(base, a) =~= fold_max(base, b));
    assert(fold_derived(base, a) =~= fold_derived(base, b));
}

proof fn lemma_best_upto_same_blocks(
    pres1: Seq<StatBlock>,
    pres2: Seq<StatBlock>,
    posts1: Seq<StatBlock>,
    posts2: Seq<StatBlock>,
    anys: Seq<StatBlock>,
    k: int,
)
    requires
        same_blocks(pres1, pres2),
        same_blocks(posts1, posts2),
    ensures
        best_upto(pres1, posts1, anys, k) == best_upto(pres2, posts2, anys, k),
    decreases k,
{
    if k > 0 {
        lemma_best_upto_same_blocks(pres1, pres2, posts1, posts2, anys, k - 1);
        lemma_same_blocks_same_folds(zero_stats(), pres1, pres2);
        let derived = fold_derived(zero_stats(), pres1);
        lemma_fold_derived_value(zero_stats(), pres1, 0);
        lemma_same_blocks_same_folds(derived, posts1, posts2);
        assert(combo_pre_post(pres1, posts1, anys, (k - 1) as usize) == combo_pre_post(
            pres2,
            posts2,
            anys,
            (k - 1) as usize,
        ));
    }
}

/// The optimizer's answer depends on the requirements only through their
/// stats and categories: not on their names, nor on the order or repetition
/// of the PRE requirements or of the POST requirements, nor on how these are
/// interleaved with the ANY requirements (which keep their own order). The
/// optimizer's earlier state plays no part either: `optimize_build` answers
/// `optimize_outcome` of the requirements handed to it.
pub proof fn law_answer_ignores_names_and_fixed_order(
    prerequisites: Seq<OwnedTalentPrereq>,
    others: Seq<OwnedTalentPrereq>,
)
    requires
        blocks_of(others, TalentCategory::Any) == blocks_of(prerequisites, TalentCategory::Any),
        same_blocks(
            blocks_of(others, TalentCategory::Pre),
            blocks_of(prerequisites, TalentCategory::Pre),
        ),
        same_blocks(
            blocks_of(others, TalentCategory::Post),
            blocks_of(prerequisites, TalentCategory::Post),
        ),
    ensures
        optimize_outcome(others) == optimize_outcome(prerequisites),
{
    lemma_best_upto_same_blocks(
        blocks_of(others, TalentCategory::Pre),
        blocks_of(prerequisites, TalentCategory::Pre),
        blocks_of(others, TalentCategory::Post),
        blocks_of(prerequisites, TalentCategory::Post),
        blocks_of(prerequisites, TalentCategory::Any),
        combination_count(prerequisites),
    );
}

/// The combination that puts the ANY requirements flagged in `post_side`
/// after the shrine and the others before it.
pub open spec fn combo_of(post_side: Seq<bool>) -> usize
    decreases post_side.len(),
{
    if post_side.len() == 0 {
        0
    } else {
        let c = combo_of(post_side.drop_last());
        if post_side.last() {
            c | (1usize << ((post_side.len() - 1) as usize))
        } else {
            c
        }
    }
}

proof fn lemma_set_bit(x: usize, j: usize, i: usize)
    requires
        j + 1 < usize::BITS,
        x < (1usize << j),
    ensures
        (x | (1usize << j)) < (1usize << ((j + 1) as usize)),
        x < (1usize << ((j + 1) as usize)),
        ((x >> j) & 1usize) == 0usize,
        (((x | (1usize << j)) >> j) & 1usize) == 1usize,
        i < j ==> (((x | (1usize << j)) >> i) & 1usize) == ((x >> i) & 1usize),
{
    assert((x | (1usize << j)) < (1usize << ((j + 1) as usize))) by (bit_vector)
        requires
            j + 1 < usize::BITS,
            x < (1usize << j),
    ;
    assert(x < (1usize << ((j + 1) as usize))) by (bit_vector)
        requires
            j + 1 < usize::BITS,
            x < (1usize << j),
    ;
    assert(((x >> j) & 1usize) == 0usize) by (bit_vector)
        requires
            j + 1 < usize::BITS,
            x < (1usize << j),
    ;
    assert((((x | (1usize << j)) >> j) & 1usize) == 1usize) by (bit_vector)
        requires
            j + 1 < usize::BITS,
            x < (1usize << j),
    ;
    assert(i < j ==> (((x | (1usize << j)) >> i) & 1usize) == ((x >> i) & 1usize)) by (bit_vector)
        requires
            j + 1 < usize::BITS,
    ;
}

proof fn lemma_combo_of(post_side: Seq<bool>)
    requires
        post_side.len() < usize::BITS,
    ensures
        combo_of(post_side) < (1usize << (post_side.len() as usize)),
        forall|i: int|
            0 <= i < post_side.len() ==> treat_as_pre(combo_of(post_side), i) == !post_side[i],
    decreases post_side.len(),
{
    if post_side.len() == 0 {
        assert((1usize << 0usize) == 1usize) by (bit_vector);
    } else {
        let rest = post_side.drop_last();
        lemma_combo_of(rest);
        let c = combo_of(rest);
        let j = (post_side.len() - 1) as usize;
        assert forall|i: int| 0 <= i < post_side.len() implies treat_as_pre(
            combo_of(post_side),
            i,
        ) == !post_side[i] by {
            lemma_set_bit(c, j, i as usize);
            if i < j {
                assert(rest[i] == post_side[i]);
            }
        }
        lemma_set_bit(c, j, 0);
    }
}

/// The PRE and POST stats of one combination, stat by stat: each is the
/// larger of its starting value and what the ANY blocks on its side ask
/// (a PRE-side block asks its POST demand of the POST side too).
proof fn lemma_any_fold_value(pre: Seq<u8>, post: Seq<u8>, anys: Seq<StatBlock>, combo: usize, i: int)
    requires
        pre.len() == 16,
        post.len() == 16,
        0 <= i < 16,
    ensures
        any_fold(pre, post, anys, combo).0.len() == 16,
        any_fold(pre, post, anys, combo).1.len() == 16,
        any_fold(pre, post, anys, combo).0[i] >= pre[i],
        any_fold(pre, post, anys, combo).1[i] >= post[i],
        forall|k: int|
            0 <= k < anys.len() && treat_as_pre(combo, k) ==> any_fold(pre, post, anys, combo).0[i]
                >= (#[trigger] anys[k])@[i] && any_fold(pre, post, anys, combo).1[i] >= derived_demand(
                anys[k],
                i,
            ),
        forall|k: int|
            0 <= k < anys.len() && !treat_as_pre(combo, k) ==> any_fold(pre, post, anys, combo).1[i]
                >= (#[trigger] anys[k])@[i],
        any_fold(pre, post, anys, combo).0[i] == pre[i] || exists|k: int|
            0 <= k < anys.len() && treat_as_pre(combo, k) && any_fold(pre, post, anys, combo).0[i]
                == (#[trigger] anys[k])@[i],
        any_fold(pre, post, anys, combo).1[i] == post[i] || exists|k: int|
            0 <= k < anys.len() && ((treat_as_pre(combo, k) && any_fold(pre, post, anys, combo).1[i]
                == derived_demand(#[trigger] anys[k], i)) || (!treat_as_pre(combo, k) && any_fold(
                pre,
                post,
                anys,
                combo,
            ).1[i] == anys[k]@[i])),
    decreases anys.len(),
{
    if anys.len() > 0 {
        let rest = anys.drop_last();
        let a = anys.last();
        let n = anys.len() - 1;
        assert(anys[n] == a);
        lemma_any_fold_value(pre, post, rest, combo, i);
        let (p, q) = any_fold(pre, post, rest, combo);
        lemma_view_layout(a);
        lemma_derived_post_is_max(q, a, i);
        let (p2, q2) = any_fold(pre, post, anys, combo);
        assert forall|k: int| 0 <= k < anys.len() && treat_as_pre(combo, k) implies p2[i] >= (
        #[trigger] anys[k])@[i] && q2[i] >= derived_demand(anys[k], i) by {
            if k < n {
                assert(rest[k] == anys[k]);
            }
        }
        assert forall|k: int| 0 <= k < anys.len() && !treat_as_pre(combo, k) implies q2[i] >= (
        #[trigger] anys[k])@[i] by {
            if k < n {
                assert(rest[k] == anys[k]);
            }
        }
        if p2[i] != pre[i] {
            if p2[i] != p[i] {
                assert(treat_as_pre(combo, n) && p2[i] == anys[n]@[i]);
            } else {
                let k = choose|k: int|
                    0 <= k < rest.len() && treat_as_pre(combo, k) && p[i] == (#[trigger] rest[k])@[i];
                assert(rest[k] == anys[k]);
            }
        }
        if q2[i] != post[i] {
            if q2[i] != q[i] {
                if treat_as_pre(combo, n) {
                    assert(q2[i] == derived_demand(anys[n], i));
                } else {
                    assert(q2[i] == anys[n]@[i]);
                }
            } else {
                let k = choose|k: int|
                    0 <= k < rest.len() && ((treat_as_pre(combo, k) && q[i] == derived_demand(
                        #[trigger] rest[k],
                        i,
                    )) || (!treat_as_pre(combo, k) && q[i] == rest[k]@[i]));
                assert(rest[k] == anys[k]);
            }
        }
    }
}

/// True when `m` sends every index of `b` to an index of `a` holding the
/// same block on the same side, and meets every index of `a`.
pub open spec fn same_sides(
    a: Seq<StatBlock>,
    ca: usize,
    b: Seq<StatBlock>,
    cb: usize,
    m: Seq<int>,
) -> bool {
    &&& m.len() == b.len()
    &&& forall|j: int|
        0 <= j < m.len() ==> 0 <= #[trigger] m[j] < a.len() && b[j] == a[m[j]] && treat_as_pre(cb, j)
            == treat_as_pre(ca, m[j])
    &&& forall|k: int| 0 <= k < a.len() ==> #[trigger] index_used(m, k)
}

/// True when some entry of `m` is `k`.
pub open spec fn index_used(m: Seq<int>, k: int) -> bool {
    exists|j: int| 0 <= j < m.len() && #[trigger] m[j] == k
}

proof fn lemma_any_fold_same_sides(
    pre: Seq<u8>,
    post: Seq<u8>,
    a: Seq<StatBlock>,
    ca: usize,
    b: Seq<StatBlock>,
    cb: usize,
    m: Seq<int>,
)
    requires
        pre.len() == 16,
        post.len() == 16,
        same_sides(a, ca, b, cb, m),
    ensures
        any_fold(pre, post, b, cb) == any_fold(pre, post, a, ca),
{
    let (pa, qa) = any_fold(pre, post, a, ca);
    let (pb, qb) = any_fold(pre, post, b, cb);
    assert forall|i: int| 0 <= i < 16 implies pa[i] == pb[i] && qa[i] == qb[i] by {
        lemma_any_fold_value(pre, post, a, ca, i);
        lemma_any_fold_value(pre, post, b, cb, i);
        if pa[i] != pre[i] {
            let k = choose|k: int|
                0 <= k < a.len() && treat_as_pre(ca, k) && pa[i] == (#[trigger] a[k])@[i];
            assert(index_used(m, k));
            let j = choose|j: int| 0 <= j < m.len() && #[trigger] m[j] == k;
            assert(b[j] == a[k]);
            assert(pb[i] >= b[j]@[i]);
        }
        if pb[i] != pre[i] {
            let j = choose|j: int|
                0 <= j < b.len() && treat_as_pre(cb, j) && pb[i] == (#[trigger] b[j])@[i];
            assert(0 <= m[j] < a.len());
            assert(b[j] == a[m[j]]);
            assert(pa[i] >= a[m[j]]@[i]);
        }
        if qa[i] != post[i] {
            let k = choose|k: int|
                0 <= k < a.len() && ((treat_as_pre(ca, k) && qa[i] == derived_demand(
                    #[trigger] a[k],
                    i,
                )) || (!treat_as_pre(ca, k) && qa[i] == a[k]@[i]));
            assert(index_used(m, k));
            let j = choose|j: int| 0 <= j < m.len() && #[trigger] m[j] == k;
            assert(b[j] == a[k]);
            assert(qb[i] >= b[j]@[i] || treat_as_pre(cb, j));
        }
        if qb[i] != post[i] {
            let j = choose|j: int|
                0 <= j < b.len() && ((treat_as_pre(cb, j) && qb[i] == derived_demand(
                    #[trigger] b[j],
                    i,
                )) || (!treat_as_pre(cb, j) && qb[i] == b[j]@[i]));
            assert(0 <= m[j] < a.len());
            assert(b[j] == a[m[j]]);
        }
    }
    lemma_any_fold_value(pre, post, a, ca, 0);
    lemma_any_fold_value(pre, post, b, cb, 0);
    assert(pa =~= pb);
    assert(qa =~= qb);
}

/// True when PRE variant `v` of combination `combo` gives a build that
/// leaves `points`.
pub open spec fn combo_gives(
    pres: Seq<StatBlock>,
    posts: Seq<StatBlock>,
    anys: Seq<StatBlock>,
    combo: usize,
    v: Seq<u8>,
    points: int,
) -> bool {
    let (pre, post) = combo_pre_post(pres, posts, anys, combo);
    &&& !impossible_pair(pre, post)
    &&& zero_variants(pre, post).contains(v)
    &&& variant_candidate(v, post) matches Some(c) && c.0 == points
}

proof fn lemma_best_over_variants_found(best: Option<Candidate>, vs: Seq<Seq<u8>>, post: Seq<u8>)
    ensures
        best_over_variants(best, vs, post) matches Some(c) ==> (best matches Some(b) && b.0 == c.0)
            || exists|i: int|
            0 <= i < vs.len() && (#[trigger] variant_candidate(vs[i], post)) is Some && candidate_points(variant_candidate(vs[i], post)) == c.0,
    decreases vs.len(),
{
    if vs.len() > 0 {
        let rest = vs.drop_last();
        lemma_best_over_variants_found(best, rest, post);
        let r = best_over_variants(best, vs, post);
        let prev = best_over_variants(best, rest, post);
        if let Some(c) = r {
            if r == prev {
                if !(best matches Some(b) && b.0 == c.0) {
                    let i = choose|i: int|
                        0 <= i < rest.len() && (#[trigger] variant_candidate(rest[i], post)) is Some && candidate_points(variant_candidate(rest[i], post)) == c.0;
                    assert(rest[i] == vs[i]);
                }
            } else {
                assert(vs[vs.len() - 1] == vs.last());
                assert(variant_candidate(vs[vs.len() - 1], post) == Some(c));
            }
        }
    }
}

proof fn lemma_best_upto_found(pres: Seq<StatBlock>, posts: Seq<StatBlock>, anys: Seq<StatBlock>, k: int)
    requires
        k <= usize::MAX + 1,
    ensures
        best_upto(pres, posts, anys, k) matches Some(c) ==> exists|combo: usize, v: Seq<u8>|
            combo < k && #[trigger] combo_gives(pres, posts, anys, combo, v, c.0),
    decreases k,
{
    if k > 0 {
        lemma_best_upto_found(pres, posts, anys, k - 1);
        let prev = best_upto(pres, posts, anys, k - 1);
        let combo = (k - 1) as usize;
        let (pre, post) = combo_pre_post(pres, posts, anys, combo);
        if let Some(c) = best_upto(pres, posts, anys, k) {
            if !impossible_pair(pre, post) {
                let vs = zero_variants(pre, post);
                lemma_best_over_variants_found(prev, vs, post);
                if !(prev matches Some(b) && b.0 == c.0) {
                    let i = choose|i: int|
                        0 <= i < vs.len() && (#[trigger] variant_candidate(vs[i], post)) is Some && candidate_points(variant_candidate(vs[i], post)) == c.0;
                    assert(vs.contains(vs[i]));
                    assert(combo_gives(pres, posts, anys, combo, vs[i], c.0));
                }
            }
        }
    }
}

/// True when `perm` reorders `a` into `b`: `b[j]` is `a[perm[j]]`, and every
/// index of `a` is used exactly once.
pub open spec fn reorders(a: Seq<StatBlock>, b: Seq<StatBlock>, perm: Seq<int>) -> bool {
    &&& perm.len() == b.len()
    &&& b.len() == a.len()
    &&& forall|j: int|
        0 <= j < perm.len() ==> 0 <= #[trigger] perm[j] < a.len() && b[j] == a[perm[j]]
    &&& forall|j1: int, j2: int|
        #![trigger perm[j1], perm[j2]]
        0 <= j1 < perm.len() && 0 <= j2 < perm.len() && j1 != j2 ==> perm[j1] != perm[j2]
    &&& forall|k: int| 0 <= k < a.len() ==> #[trigger] index_used(perm, k)
}

proof fn lemma_reorders_back(a: Seq<StatBlock>, b: Seq<StatBlock>, perm: Seq<int>) -> (inv: Seq<int>)
    requires
        reorders(a, b, perm),
    ensures
        reorders(b, a, inv),
{
    let n = a.len();
    let inv = Seq::new(n, |k: int| choose|j: int| 0 <= j < perm.len() && perm[j] == k);
    assert forall|k: int| 0 <= k < inv.len() implies 0 <= #[trigger] inv[k] < b.len() && a[k] == b[inv[k]]
        && perm[inv[k]] == k by {
        assert(index_used(perm, k));
        let j = choose|j: int| 0 <= j < perm.len() && perm[j] == k;
        assert(inv[k] == j);
        assert(b[j] == a[perm[j]]);
    }
    assert forall|k1: int, k2: int|
        #![trigger inv[k1], inv[k2]]
        0 <= k1 < inv.len() && 0 <= k2 < inv.len() && k1 != k2 implies inv[k1] != inv[k2] by {
        assert(perm[inv[k1]] == k1);
        assert(perm[inv[k2]] == k2);
    }
    assert forall|j: int| 0 <= j < b.len() implies #[trigger] index_used(inv, j) by {
        let k = perm[j];
        assert(0 <= k < n);
        assert(perm[inv[k]] == k);
        assert(inv[k] == j);
        assert(0 <= k < inv.len());
    }
    inv
}

proof fn lemma_shift_counts(n: usize)
    requires
        n < usize::BITS,
    ensures
        (1usize << (n as u32)) == (1usize << n),
{
    assert((1usize << (n as u32)) == (1usize << n)) by (bit_vector)
        requires
            n < usize::BITS,
    ;
}

proof fn lemma_reorder_moves_build(
    pres: Seq<StatBlock>,
    posts: Seq<StatBlock>,
    a: Seq<StatBlock>,
    b: Seq<StatBlock>,
    perm: Seq<int>,
    combo_a: usize,
    v: Seq<u8>,
    points: int,
) -> (combo_b: usize)
    requires
        reorders(a, b, perm),
        a.len() < usize::BITS,
        combo_gives(pres, posts, a, combo_a, v, points),
    ensures
        combo_b < (1usize << (b.len() as usize)),
        combo_gives(pres, posts, b, combo_b, v, points),
{
    let n = b.len();
    let post_side = Seq::new(n, |j: int| !treat_as_pre(combo_a, perm[j]));
    let combo_b = combo_of(post_side);
    lemma_combo_of(post_side);
    assert(same_sides(a, combo_a, b, combo_b, perm)) by {
        assert forall|j: int| 0 <= j < perm.len() implies 0 <= #[trigger] perm[j] < a.len() && b[j]
            == a[perm[j]] && treat_as_pre(combo_b, j) == treat_as_pre(combo_a, perm[j]) by {
            assert(post_side[j] == !treat_as_pre(combo_a, perm[j]));
        }
    }
    let pre0 = fold_max(zero_stats(), pres);
    let post0 = fold_max(fold_derived(zero_stats(), pres), posts);
    lemma_fold_max_value(zero_stats(), pres, 0);
    lemma_fold_derived_value(zero_stats(), pres, 0);
    lemma_fold_max_value(fold_derived(zero_stats(), pres), posts, 0);
    lemma_any_fold_same_sides(pre0, post0, a, combo_a, b, combo_b, perm);
    assert(combo_pre_post(pres, posts, b, combo_b) == combo_pre_post(pres, posts, a, combo_a));
    combo_b
}

proof fn lemma_reordered_best_reaches(
    pres: Seq<StatBlock>,
    posts: Seq<StatBlock>,
    a: Seq<StatBlock>,
    b: Seq<StatBlock>,
    perm: Seq<int>,
)
    requires
        reorders(a, b, perm),
        a.len() < usize::BITS,
    ensures
        best_upto(pres, posts, a, (1usize << (a.len() as usize)) as int) matches Some(c) ==> reaches(
            best_upto(pres, posts, b, (1usize << (b.len() as usize)) as int),
            c.0,
        ),
{
    let ka = (1usize << (a.len() as usize)) as int;
    let kb = (1usize << (b.len() as usize)) as int;
    lemma_best_upto_found(pres, posts, a, ka);
    if let Some(c) = best_upto(pres, posts, a, ka) {
        let (combo_a, v) = choose|combo: usize, v: Seq<u8>|
            combo < ka && #[trigger] combo_gives(pres, posts, a, combo, v, c.0);
        let combo_b = lemma_reorder_moves_build(pres, posts, a, b, perm, combo_a, v, c.0);
        lemma_best_upto_reaches(pres, posts, b, kb, combo_b as int, v);
    }
}

/// The points the optimizer's answer leaves depend on the ANY requirements
/// only through which blocks they hold, not through their order; together
/// with the PRE and POST requirements given by the blocks they hold (names,
/// order and repetition aside), any reordering of the requirements leaves
/// the answer's points, and whether there is one, unchanged. (Which of
/// several equally good builds is reported may change with the order.)
pub proof fn law_answer_points_ignore_order(
    prerequisites: Seq<OwnedTalentPrereq>,
    others: Seq<OwnedTalentPrereq>,
    perm: Seq<int>,
)
    requires
        reorders(
            blocks_of(prerequisites, TalentCategory::Any),
            blocks_of(others, TalentCategory::Any),
            perm,
        ),
        blocks_of(prerequisites, TalentCategory::Any).len() <= u32::MAX,
        same_blocks(
            blocks_of(others, TalentCategory::Pre),
            blocks_of(prerequisites, TalentCategory::Pre),
        ),
        same_blocks(
            blocks_of(others, TalentCategory::Post),
            blocks_of(prerequisites, TalentCategory::Post),
        ),
    ensures
        match (optimize_outcome(prerequisites), optimize_outcome(others)) {
            (Ok(c1), Ok(c2)) => c1.0 == c2.0,
            (Err(e1), Err(e2)) => e1 == e2,
            _ => false,
        },
{
    let a = blocks_of(prerequisites, TalentCategory::Any);
    let b = blocks_of(others, TalentCategory::Any);
    let pres = blocks_of(prerequisites, TalentCategory::Pre);
    let posts = blocks_of(prerequisites, TalentCategory::Post);
    if !too_many_any(prerequisites) {
        let n = a.len() as usize;
        lemma_shift_counts(n);
        let k = combination_count(prerequisites);
        assert(k == combination_count(others));
        lemma_best_upto_same_blocks(
            blocks_of(others, TalentCategory::Pre),
            pres,
            blocks_of(others, TalentCategory::Post),
            posts,
            b,
            k,
        );
        let inv = lemma_reorders_back(a, b, perm);
        lemma_reordered_best_reaches(pres, posts, a, b, perm);
        lemma_reordered_best_reaches(pres, posts, b, a, inv);
    }
}

/// The lengths of the stat labels, and labels of the same length differ in
/// some character.
proof fn lemma_chip_labels_differ()
    ensures
        "Strength"@.len() == 8,
        "Fortitude"@.len() == 9,
        "Agility"@.len() == 7,
        "Intelligence"@.len() == 12,
        "Willpower"@.len() == 9,
        "Charisma"@.len() == 8,
        "Weapon"@.len() == 6,
        "Mind"@.len() == 4,
        "Body"@.len() == 4,
        "Attunement"@.len() == 10,
        "Heavy Weapon"@.len() == 12,
        "Heavy Wep."@.len() == 10,
        "Medium Weapon"@.len() == 13,
        "Medium Wep."@.len() == 11,
        "Light Weapon"@.len() == 12,
        "Light Wep."@.len() == 10,
        "Flamecharm"@.len() == 10,
        "Frostdraw"@.len() == 9,
        "Thundercall"@.len() == 11,
        "Galebreathe"@.len() == 11,
        "Shadowcast"@.len() == 10,
        "Ironsing"@.len() == 8,
        "Bloodrend"@.len() == 9,
        "Bloodrender"@.len() == 11,
        "Willpower"@ != "Fortitude"@,
        "Charisma"@ != "Strength"@,
        "Body"@ != "Mind"@,
        "Heavy Weapon"@ != "Intelligence"@,
        "Heavy Wep."@ != "Attunement"@,
        "Light Weapon"@ != "Intelligence"@,
        "Light Weapon"@ != "Heavy Weapon"@,
        "Light Wep."@ != "Attunement"@,
        "Light Wep."@ != "Heavy Wep."@,
        "Flamecharm"@ != "Attunement"@,
        "Flamecharm"@ != "Heavy Wep."@,
        "Flamecharm"@ != "Light Wep."@,
        "Frostdraw"@ != "Fortitude"@,
        "Frostdraw"@ != "Willpower"@,
        "Thundercall"@ != "Medium Wep."@,
        "Galebreathe"@ != "Medium Wep."@,
        "Galebreathe"@ != "Thundercall"@,
        "Shadowcast"@ != "Attunement"@,
        "Shadowcast"@ != "Heavy Wep."@,
        "Shadowcast"@ != "Light Wep."@,
        "Shadowcast"@ != "Flamecharm"@,
        "Ironsing"@ != "Strength"@,
        "Ironsing"@ != "Charisma"@,
        "Bloodrend"@ != "Fortitude"@,
        "Bloodrend"@ != "Willpower"@,
        "Bloodrend"@ != "Frostdraw"@,
        "Bloodrender"@ != "Medium Wep."@,
        "Bloodrender"@ != "Thundercall"@,
        "Bloodrender"@ != "Galebreathe"@,
{
    reveal_strlit("Strength");
    reveal_strlit("Fortitude");
    reveal_strlit("Agility");
    reveal_strlit("Intelligence");
    reveal_strlit("Willpower");
    reveal_strlit("Charisma");
    reveal_strlit("Weapon");
    reveal_strlit("Mind");
    reveal_strlit("Body");
    reveal_strlit("Attunement");
    reveal_strlit("Heavy Weapon");
    reveal_strlit("Heavy Wep.");
    reveal_strlit("Medium Weapon");
    reveal_strlit("Medium Wep.");
    reveal_strlit("Light Weapon");
    reveal_strlit("Light Wep.");
    reveal_strlit("Flamecharm");
    reveal_strlit("Frostdraw");
    reveal_strlit("Thundercall");
    reveal_strlit("Galebreathe");
    reveal_strlit("Shadowcast");
    reveal_strlit("Ironsing");
    reveal_strlit("Bloodrend");
    reveal_strlit("Bloodrender");
    assert("Willpower"@[0] != "Fortitude"@[0]);
    assert("Charisma"@[0] != "Strength"@[0]);
    assert("Body"@[0] != "Mind"@[0]);
    assert("Heavy Weapon"@[0] != "Intelligence"@[0]);
    assert("Heavy Wep."@[0] != "Attunement"@[0]);
    assert("Light Weapon"@[0] != "Intelligence"@[0]);
    assert("Light Weapon"@[0] != "Heavy Weapon"@[0]);
    assert("Light Wep."@[0] != "Attunement"@[0]);
    assert("Light Wep."@[0] != "Heavy Wep."@[0]);
    assert("Flamecharm"@[0] != "Attunement"@[0]);
    assert("Flamecharm"@[0] != "Heavy Wep."@[0]);
    assert("Flamecharm"@[0] != "Light Wep."@[0]);
    assert("Frostdraw"@[1] != "Fortitude"@[1]);
    assert("Frostdraw"@[0] != "Willpower"@[0]);
    assert("Thundercall"@[0] != "Medium Wep."@[0]);
    assert("Galebreathe"@[0] != "Medium Wep."@[0]);
    assert("Galebreathe"@[0] != "Thundercall"@[0]);
    assert("Shadowcast"@[0] != "Attunement"@[0]);
    assert("Shadowcast"@[0] != "Heavy Wep."@[0]);
    assert("Shadowcast"@[0] != "Light Wep."@[0]);
    assert("Shadowcast"@[0] != "Flamecharm"@[0]);
    assert("Ironsing"@[0] != "Strength"@[0]);
    assert("Ironsing"@[0] != "Charisma"@[0]);
    assert("Bloodrend"@[0] != "Fortitude"@[0]);
    assert("Bloodrend"@[0] != "Willpower"@[0]);
    assert("Bloodrend"@[0] != "Frostdraw"@[0]);
    assert("Bloodrender"@[0] != "Medium Wep."@[0]);
    assert("Bloodrender"@[0] != "Thundercall"@[0]);
    assert("Bloodrender"@[0] != "Galebreathe"@[0]);
}

/// The names of all sixteen stats, in flat order: base, weapon, attunement.
pub open spec fn stat_names() -> Seq<Seq<char>> {
    str_views(BASE_STATS@) + str_views(WEAPON_STATS@) + str_views(ATTUNEMENT_STATS@)
}

proof fn lemma_reveal_stat_labels()
    ensures
        stat_names() == seq![
            "Strength"@, "Fortitude"@, "Agility"@, "Intelligence"@, "Willpower"@, "Charisma"@,
            "Heavy Wep."@, "Medium Wep."@, "Light Wep."@, "Flamecharm"@, "Frostdraw"@,
            "Thundercall"@, "Galebreathe"@, "Shadowcast"@, "Ironsing"@, "Bloodrend"@,
        ],
{
    reveal_strlit("Strength");
    reveal_strlit("Fortitude");
    reveal_strlit("Agility");
    reveal_strlit("Intelligence");
    reveal_strlit("Willpower");
    reveal_strlit("Charisma");
    reveal_strlit("Weapon");
    reveal_strlit("Mind");
    reveal_strlit("Body");
    reveal_strlit("Attunement");
    reveal_strlit("Heavy Weapon");
    reveal_strlit("Heavy Wep.");
    reveal_strlit("Medium Weapon");
    reveal_strlit("Medium Wep.");
    reveal_strlit("Light Weapon");
    reveal_strlit("Light Wep.");
    reveal_strlit("Flamecharm");
    reveal_strlit("Frostdraw");
    reveal_strlit("Thundercall");
    reveal_strlit("Galebreathe");
    reveal_strlit("Shadowcast");
    reveal_strlit("Ironsing");
    reveal_strlit("Bloodrend");
    reveal_strlit("Bloodrender");
    assert(stat_names() =~= seq![
        "Strength"@, "Fortitude"@, "Agility"@, "Intelligence"@, "Willpower"@, "Charisma"@,
        "Heavy Wep."@, "Medium Wep."@, "Light Wep."@, "Flamecharm"@, "Frostdraw"@,
        "Thundercall"@, "Galebreathe"@, "Shadowcast"@, "Ironsing"@, "Bloodrend"@,
    ]);
}

/// A requirement chip labelled with a stat's name raises that stat and no
/// other: the `k`-th of the sixteen stat names (base, weapon, attunement, as
/// the talent listing names them) selects flat stat `k`, and the long weapon
/// names and `Bloodrender` select the stats they stand for.
pub proof fn law_chips_raise_the_named_stat()
    ensures
        forall|k: int| 0 <= k < 16 ==> chip_slot(#[trigger] stat_names()[k]) == Some(k),
        chip_slot("Heavy Weapon"@) == Some(6int),
        chip_slot("Medium Weapon"@) == Some(7int),
        chip_slot("Light Weapon"@) == Some(8int),
        chip_slot("Bloodrender"@) == Some(15int),
        chip_slot("Weapon"@) is None,
        chip_slot("Mind"@) is None,
        chip_slot("Body"@) is None,
        chip_slot("Attunement"@) is None,
{
    reveal_strlit("Strength");
    reveal_strlit("Fortitude");
    reveal_strlit("Agility");
    reveal_strlit("Intelligence");
    reveal_strlit("Willpower");
    reveal_strlit("Charisma");
    reveal_strlit("Weapon");
    reveal_strlit("Mind");
    reveal_strlit("Body");
    reveal_strlit("Attunement");
    reveal_strlit("Heavy Weapon");
    reveal_strlit("Heavy Wep.");
    reveal_strlit("Medium Weapon");
    reveal_strlit("Medium Wep.");
    reveal_strlit("Light Weapon");
    reveal_strlit("Light Wep.");
    reveal_strlit("Flamecharm");
    reveal_strlit("Frostdraw");
    reveal_strlit("Thundercall");
    reveal_strlit("Galebreathe");
    reveal_strlit("Shadowcast");
    reveal_strlit("Ironsing");
    reveal_strlit("Bloodrend");
    reveal_strlit("Bloodrender");
    lemma_reveal_stat_labels();
    lemma_chip_labels_differ();
    assert forall|k: int| 0 <= k < 16 implies chip_slot(#[trigger] stat_names()[k]) == Some(k) by {
        if k == 0 {
            assert(chip_slot("Strength"@) == Some(0int));
        } else if k == 1 {
            assert(chip_slot("Fortitude"@) == Some(1int));
        } else if k == 2 {
            assert(chip_slot("Agility"@) == Some(2int));
        } else if k == 3 {
            assert(chip_slot("Intelligence"@) == Some(3int));
        } else if k == 4 {
            assert(chip_slot("Willpower"@) == Some(4int));
        } else if k == 5 {
            assert(chip_slot("Charisma"@) == Some(5int));
        } else if k == 6 {
            assert(chip_slot("Heavy Wep."@) == Some(6int));
        } else if k == 7 {
            assert(chip_slot("Medium Wep."@) == Some(7int));
        } else if k == 8 {
            assert(chip_slot("Light Wep."@) == Some(8int));
        } else if k == 9 {
            assert(chip_slot("Flamecharm"@) == Some(9int));
        } else if k == 10 {
            assert(chip_slot("Frostdraw"@) == Some(10int));
        } else if k == 11 {
            assert(chip_slot("Thundercall"@) == Some(11int));
        } else if k == 12 {
            assert(chip_slot("Galebreathe"@) == Some(12int));
        } else if k == 13 {
            assert(chip_slot("Shadowcast"@) == Some(13int));
        } else if k == 14 {
            assert(chip_slot("Ironsing"@) == Some(14int));
        } else if k == 15 {
            assert(chip_slot("Bloodrend"@) == Some(15int));
        }
    }
    assert(chip_slot("Heavy Weapon"@) == Some(6int));
    assert(chip_slot("Medium Weapon"@) == Some(7int));
    assert(chip_slot("Light Weapon"@) == Some(8int));
    assert(chip_slot("Bloodrender"@) == Some(15int));
}

/// A grouped chip offers, as its `j`-th choice, the stat that a chip with
/// that choice's name would raise: choosing a stat of the group raises the
/// stat of that name.
pub proof fn law_group_choices_raise_the_named_stat(label: Seq<char>)
    ensures
        stat_group(label) matches Some((names, offset)) ==> forall|j: int|
            0 <= j < names.len() ==> chip_slot(#[trigger] names[j]) == Some(offset + j),
{
    reveal_strlit("Strength");
    reveal_strlit("Fortitude");
    reveal_strlit("Agility");
    reveal_strlit("Intelligence");
    reveal_strlit("Willpower");
    reveal_strlit("Charisma");
    reveal_strlit("Weapon");
    reveal_strlit("Mind");
    reveal_strlit("Body");
    reveal_strlit("Attunement");
    reveal_strlit("Heavy Weapon");
    reveal_strlit("Heavy Wep.");
    reveal_strlit("Medium Weapon");
    reveal_strlit("Medium Wep.");
    reveal_strlit("Light Weapon");
    reveal_strlit("Light Wep.");
    reveal_strlit("Flamecharm");
    reveal_strlit("Frostdraw");
    reveal_strlit("Thundercall");
    reveal_strlit("Galebreathe");
    reveal_strlit("Shadowcast");
    reveal_strlit("Ironsing");
    reveal_strlit("Bloodrend");
    reveal_strlit("Bloodrender");
    lemma_reveal_stat_labels();
    lemma_chip_labels_differ();
    if let Some((names, offset)) = stat_group(label) {
        assert(str_views(WEAPON_CHOICES@) =~= seq!["Heavy Weapon"@, "Medium Weapon"@, "Light Weapon"@]);
        assert(str_views(MIND_CHOICES@) =~= seq!["Intelligence"@, "Willpower"@, "Charisma"@]);
        assert(str_views(BODY_CHOICES@) =~= seq!["Strength"@, "Fortitude"@, "Agility"@]);
        assert(str_views(ATTUNEMENT_STATS@) =~= stat_names().subrange(9, 16));
    }
}

/// The requirements handed to the optimizer are the chosen talents, in
/// order, each with its shown name, its stats and the category it was
/// chosen in, followed only by the manual PRE stats (as PRE) and the manual
/// POST stats (as POST) when they are set; so exactly the talents chosen as
/// ANY are handed over as ANY.
pub proof fn law_optimizer_gets_each_chosen_talent(
    sel: Seq<SelectedTalent>,
    pre: StatBlock,
    post: StatBlock,
)
    ensures
        planned_prereqs(sel, pre, post).len() == sel.len() + (if pre@ != zero_stats() {
            1int
        } else {
            0int
        }) + (if post@ != zero_stats() {
            1int
        } else {
            0int
        }),
        forall|k: int|
            0 <= k < sel.len() ==> (#[trigger] planned_prereqs(sel, pre, post)[k]).2 == sel[k].category
                && planned_prereqs(sel, pre, post)[k].1 == sel[k].talent.stats
                && planned_prereqs(sel, pre, post)[k].0 == display_text(sel[k].talent@),
        forall|k: int|
            sel.len() <= k < planned_prereqs(sel, pre, post).len() ==> (#[trigger] planned_prereqs(
                sel,
                pre,
                post,
            )[k]).2 != TalentCategory::Any,
        pre@ != zero_stats() ==> planned_prereqs(sel, pre, post)[sel.len() as int] == (
            "Manual PRE"@,
            pre,
            TalentCategory::Pre,
        ),
{
}

/// A talent's name and rarity are the texts of its entry's `name` and
/// `rarity` members, whether given inline or as a reference to a text in the
/// payload; the rarity is `Common` only when the entry has no rarity text.
pub proof fn law_talent_texts_come_from_the_entry(
    root: Seq<JsonValue>,
    entry_ref: JsonValue,
    i: usize,
    e: Seq<(String, JsonValue)>,
    k: int,
)
    requires
        entry_object(root, entry_ref) == Some((i, e)),
        0 <= k < entry_talents(root, entry_ref).len(),
    ensures
        member(e, "rarity"@) matches Some(JsonValue::Text(r)) ==> entry_talents(root, entry_ref)[k].rarity
            == r@,
        member(e, "rarity"@) is None ==> entry_talents(root, entry_ref)[k].rarity == "Common"@,
        member(e, "name"@) matches Some(JsonValue::Text(nm)) ==> entry_talents(root, entry_ref)[k].name
            == nm@,
        entry_requirements(root, e) is None ==> entry_talents(root, entry_ref)[k].key == lowercase(
            entry_talents(root, entry_ref)[k].name,
        ) + "::"@ + nat_text(i as nat) && entry_talents(root, entry_ref)[k].stats == zero_stats()
            && entry_talents(root, entry_ref)[k].label is None,
        entry_requirements(root, e) is Some ==> (entry_talents(root, entry_ref)[k].label matches Some(
            l,
        ) ==> entry_talents(root, entry_ref)[k].key == lowercase(
            lowercase(entry_talents(root, entry_ref)[k].name) + "::"@ + nat_text(i as nat) + "::"@ + l,
        )),
{
    reveal_strlit("Common");
    let name = entry_text(root, e, "name"@)->0;
    let key = talent_key(name, i as nat);
    let rarity = entry_rarity(root, e);
    if let Some(m) = entry_requirements(root, e) {
        let vs = expanded_variants(root, m, empty_variant(), false);
        assert(entry_talents(root, entry_ref)[k] == variant_talent(key, name, rarity, vs[k]));
    }
}

/// A talent whose entry gives its rarity as a reference to a text of the
/// payload has that text as its rarity; likewise for its name.
pub proof fn law_referenced_texts_are_resolved(
    root: Seq<JsonValue>,
    entry_ref: JsonValue,
    i: usize,
    e: Seq<(String, JsonValue)>,
    k: int,
    key: Seq<char>,
    n: u64,
    text: String,
)
    requires
        entry_object(root, entry_ref) == Some((i, e)),
        0 <= k < entry_talents(root, entry_ref).len(),
        key == "rarity"@ || key == "name"@,
        member(e, key) == Some(JsonValue::UInt(n)),
        (n as usize) < root.len(),
        root[(n as usize) as int] == JsonValue::Text(text),
    ensures
        key == "rarity"@ ==> entry_talents(root, entry_ref)[k].rarity == text@,
        key == "name"@ ==> entry_talents(root, entry_ref)[k].name == text@,
{
    law_talent_texts_come_from_the_entry(root, entry_ref, i, e, k);
    let name = entry_text(root, e, "name"@)->0;
    let key0 = talent_key(name, i as nat);
    let rarity = entry_rarity(root, e);
    if let Some(m) = entry_requirements(root, e) {
        let vs = expanded_variants(root, m, empty_variant(), false);
        assert(entry_talents(root, entry_ref)[k] == variant_talent(key0, name, rarity, vs[k]));
    }
}

/// The opening of a build report: the points left, then the heading of the
/// list of PRE stats.
pub open spec fn report_head(points_spare: int) -> Seq<char> {
    "=== BUILD OPTIMIZATION RESULTS ===\n\n"@ + rule_line() + "optimal build found\n"@ + rule_line()
        + "points spare: "@ + int_text(points_spare) + "\n\n"@ + rule_line() + "pre shrine stats\n"@
        + rule_line()
}

/// A build report opens with the points left and then lists the PRE stats
/// the build starts from (its nonzero stats, by name): that part depends on
/// the PRE stats and the points alone, not on the stats after the shrine,
/// the POST requirements or the final stats.
pub proof fn law_report_lists_the_pre_stats(
    pre: Seq<u8>,
    post: Seq<u8>,
    shrine: Seq<u8>,
    final_stats: Seq<u8>,
    points_spare: int,
)
    ensures
        ({
            let opening = report_head(points_spare) + stat_block_text(pre, Seq::empty());
            result_text(pre, post, shrine, final_stats, points_spare).subrange(0, opening.len() as int)
                == opening
        }),
{
    let opening = report_head(points_spare) + stat_block_text(pre, Seq::empty());
    let whole = result_text(pre, post, shrine, final_stats, points_spare);
    let rest = "\n"@ + rule_line() + "post shrine stats - before adding points\n"@ + rule_line()
        + block_changes_text(pre, shrine, Seq::new(16, |i: int| 0u8)) + "\n"@ + rule_line()
        + "post shrine stats - after adding points\n"@ + rule_line() + block_changes_text(
        shrine,
        final_stats,
        post,
    );
    assert(whole =~= opening + rest);
    assert((opening + rest).subrange(0, opening.len() as int) =~= opening);
}

proof fn lemma_split_evenly_no_lower(stats: Seq<u8>, slots: Seq<int>, add_each: int, rem: int, t: int)
    requires
        add_each >= 0,
        rem >= 0,
        forall|k: int|
            0 <= k < slots.len() ==> 0 <= #[trigger] slots[k] < stats.len() && stats[slots[k]]
                + add_each + rem <= 255,
        0 <= t < stats.len(),
    ensures
        split_evenly(stats, slots, add_each, rem).len() == stats.len(),
        split_evenly(stats, slots, add_each, rem)[t] >= stats[t],
    decreases slots.len(),
{
    if slots.len() > 0 {
        let rest = slots.drop_last();
        assert forall|k: int| 0 <= k < rest.len() implies 0 <= #[trigger] rest[k] < stats.len()
            && stats[rest[k]] + add_each + rem <= 255 by {
            assert(rest[k] == slots[k]);
        }
        lemma_split_evenly_no_lower(stats, rest, add_each, rem, t);
        assert(slots.last() == slots[slots.len() - 1]);
    }
}

proof fn lemma_raise_equal_bounds(stats: Seq<u8>, slots: Seq<int>, value: int, amount: int, t: int)
    requires
        amount >= 0,
        forall|k: int|
            0 <= k < slots.len() ==> 0 <= #[trigger] slots[k] < stats.len() && stats[slots[k]]
                + amount <= 255,
        0 <= t < stats.len(),
    ensures
        raise_equal(stats, slots, value, amount).len() == stats.len(),
        stats[t] <= raise_equal(stats, slots, value, amount)[t] <= stats[t] + amount,
    decreases slots.len(),
{
    if slots.len() > 0 {
        let rest = slots.drop_last();
        assert forall|k: int| 0 <= k < rest.len() implies 0 <= #[trigger] rest[k] < stats.len()
            && stats[rest[k]] + amount <= 255 by {
            assert(rest[k] == slots[k]);
        }
        lemma_raise_equal_bounds(stats, rest, value, amount, t);
        assert(slots.last() == slots[slots.len() - 1]);
    }
}

/// Spreading points never lowers a stat, as long as no slot could pass 255
/// even if it received every point.
proof fn lemma_distribute_no_lower(stats: Seq<u8>, slots: Seq<int>, total: int, t: int)
    requires
        forall|k: int|
            0 <= k < slots.len() ==> 0 <= #[trigger] slots[k] < stats.len() && stats[slots[k]]
                + total <= 255,
        0 <= t < stats.len(),
    ensures
        distribute(stats, slots, total).len() == stats.len(),
        distribute(stats, slots, total)[t] >= stats[t],
    decreases total,
{
    if total > 0 {
        let lowest = min_above(stats, slots, -1);
        let above = min_above(stats, slots, lowest);
        let second = if above == 256 {
            lowest
        } else {
            above
        };
        if lowest == second {
            let count = slots.len() as int;
            if total >= count && count > 0 {
                let add_each = total / count;
                let rem = total % count;
                assert(add_each * count + rem == total) by (nonlinear_arith)
                    requires
                        add_each == total / count,
                        rem == total % count,
                        count > 0,
                ;
                assert(add_each <= add_each * count) by (nonlinear_arith)
                    requires
                        add_each >= 0,
                        count >= 1,
                ;
                assert(add_each >= 0 && rem >= 0) by (nonlinear_arith)
                    requires
                        add_each == total / count,
                        rem == total % count,
                        count > 0,
                        total > 0,
                ;
                lemma_split_evenly_no_lower(stats, slots, add_each, rem, t);
            }
        } else {
            let lowest_count = count_equal(stats, slots, lowest);
            let difference = second - lowest;
            if total < lowest_count {
            } else if difference > 0 && total >= difference * lowest_count {
                lemma_min_above_held(stats, slots, -1);
                assert(lowest_count >= 1);
                assert(difference <= difference * lowest_count) by (nonlinear_arith)
                    requires
                        difference >= 1,
                        lowest_count >= 1,
                ;
                let raised = raise_equal(stats, slots, lowest, difference);
                let left = total - difference * lowest_count;
                lemma_raise_equal_bounds(stats, slots, lowest, difference, t);
                assert forall|k: int| 0 <= k < slots.len() implies 0 <= #[trigger] slots[k]
                    < raised.len() && raised[slots[k]] + left <= 255 by {
                    lemma_raise_equal_bounds(stats, slots, lowest, difference, slots[k]);
                }
                lemma_distribute_no_lower(raised, slots, left, t);
            } else if lowest_count > 0 && total / lowest_count > 0 {
                let amount = total / lowest_count;
                assert(amount <= total) by (nonlinear_arith)
                    requires
                        amount == total / lowest_count,
                        lowest_count >= 1,
                        total > 0,
                ;
                lemma_raise_equal_bounds(stats, slots, lowest, amount, t);
            }
        }
    }
}

/// What the Shrine of Order takes from one stat: a base or weapon stat of 26
/// or more gives exactly 25 points and keeps the rest; any other used stat
/// (a lower base or weapon stat, or an attunement) drops to 1 and gives the
/// rest; an unused stat gives nothing.
pub proof fn law_shrine_takes_from_each_stat(pre: StatBlock, i: int)
    requires
        0 <= i < 16,
    ensures
        i < 9 && pre@[i] >= 26 ==> reduced_upto(pre@, 16)[i] == pre@[i] - 25 && pool_upto(pre@, i + 1)
            == pool_upto(pre@, i) + 25,
        (i >= 9 || pre@[i] < 26) && pre@[i] >= 1 ==> reduced_upto(pre@, 16)[i] == 1 && pool_upto(
            pre@,
            i + 1,
        ) == pool_upto(pre@, i) + pre@[i] - 1,
        pre@[i] == 0 ==> reduced_upto(pre@, 16)[i] == 0 && pool_upto(pre@, i + 1) == pool_upto(
            pre@,
            i,
        ),
{
    lemma_view_layout(pre);
}

/// The Shrine of Order leaves every base and weapon stat of 26 or more at
/// least 25 below where it was, and every used stat at 1 or more, whenever
/// no stat could pass 255 even if it received every point the shrine takes.
pub proof fn law_shrine_keeps_what_it_does_not_take(pre: StatBlock, i: int)
    requires
        0 <= i < 16,
        pre@[i] >= 1,
        forall|j: int| 0 <= j < 16 ==> #[trigger] pre@[j] + pool_upto(pre@, 16) <= 255,
    ensures
        shrine_stats(pre@)[i] >= (if i < 9 && pre@[i] >= 26 {
            pre@[i] - 25
        } else {
            1
        }),
{
    lemma_view_layout(pre);
    let p = pre@;
    let reduced = reduced_upto(p, 16);
    let slots = active_upto(p, 16);
    lemma_active_upto(p, 16);
    assert(reduced[i] == reduced_value(i, p[i]));
    if slots.len() > 0 {
        assert forall|k: int| 0 <= k < slots.len() implies 0 <= #[trigger] slots[k] < reduced.len()
            && reduced[slots[k]] + pool_upto(p, 16) <= 255 by {
            assert(reduced[slots[k]] == reduced_value(slots[k], p[slots[k]]));
            assert(p[slots[k]] + pool_upto(p, 16) <= 255);
        }
        lemma_distribute_no_lower(reduced, slots, pool_upto(p, 16), i);
    }
}

proof fn lemma_named_text_single(
    prefix: Seq<char>,
    labels: Seq<Seq<char>>,
    values: Seq<u8>,
    j: int,
)
    requires
        labels.len() == values.len(),
        -1 <= j < values.len(),
        forall|m: int| 0 <= m < values.len() && m != j ==> values[m] == 0,
    ensures
        named_text(prefix, labels, values) == if j >= 0 && values[j] > 0 {
            prefix + labels[j] + ": "@ + nat_text(values[j] as nat) + "\n"@
        } else {
            Seq::empty()
        },
    decreases values.len(),
{
    if values.len() > 0 {
        let n = values.len() - 1;
        if j == n {
            lemma_named_text_single(prefix, labels.drop_last(), values.drop_last(), -1);
            assert(labels.last() == labels[j]);
            assert(values.last() == values[j]);
            if values[j] > 0 {
                assert(Seq::<char>::empty() + prefix + labels[j] + ": "@ + nat_text(values[j] as nat)
                    + "\n"@ =~= prefix + labels[j] + ": "@ + nat_text(values[j] as nat) + "\n"@);
            }
        } else {
            lemma_named_text_single(prefix, labels.drop_last(), values.drop_last(), j);
            assert(values.last() == values[n]);
            if j >= 0 {
                assert(labels.drop_last()[j] == labels[j]);
                assert(values.drop_last()[j] == values[j]);
            }
        }
    }
}

/// A stat block's listing (as the report and the optimizer's input listing
/// show it) names its stats: a block whose only set stat is the `k`-th
/// lists exactly the line `name: value` for it, and a block with no stat set
/// lists nothing.
pub proof fn law_stat_listing_names_the_set_stat(stats: StatBlock, k: int, prefix: Seq<char>)
    requires
        -1 <= k < 16,
        forall|m: int| 0 <= m < 16 && m != k ==> stats@[m] == 0,
    ensures
        stat_block_text(stats@, prefix) == if k >= 0 && stats@[k] > 0 {
            prefix + stat_names()[k] + ": "@ + nat_text(stats@[k] as nat) + "\n"@
        } else {
            Seq::empty()
        },
{
    lemma_view_layout(stats);
    let v = stats@;
    let b = v.subrange(0, 6);
    let w = v.subrange(6, 9);
    let a = v.subrange(9, 16);
    let bn = str_views(BASE_STATS@);
    let wn = str_views(WEAPON_STATS@);
    let an = str_views(ATTUNEMENT_STATS@);
    assert(stat_names() =~= bn + wn + an);
    lemma_named_text_single(prefix, bn, b, if 0 <= k < 6 { k } else { -1 });
    lemma_named_text_single(prefix, wn, w, if 6 <= k < 9 { k - 6 } else { -1 });
    lemma_named_text_single(prefix, an, a, if 9 <= k < 16 { k - 9 } else { -1 });
    if 0 <= k < 6 {
        assert(b[k] == v[k]);
        assert(stat_names()[k] == bn[k]);
    } else if 6 <= k < 9 {
        assert(w[k - 6] == v[k]);
        assert(stat_names()[k] == wn[k - 6]);
    } else if 9 <= k < 16 {
        assert(a[k - 9] == v[k]);
        assert(stat_names()[k] == an[k - 9]);
    }
    let e = Seq::<char>::empty();
    assert(e + e =~= e);
    assert(forall|x: Seq<char>| e + x =~= x && x + e =~= x);
}

proof fn lemma_stat_sum_update(s: Seq<u8>, i: int, x: u8)
    requires
        0 <= i < s.len(),
    ensures
        stat_sum(s.update(i, x)) == stat_sum(s) - s[i] + x,
    decreases s.len(),
{
    if i > 0 {
        lemma_stat_sum_update(s.drop_first(), i - 1, x);
        assert(s.update(i, x).drop_first() =~= s.drop_first().update(i - 1, x));
    } else {
        assert(s.update(i, x).drop_first() =~= s.drop_first());
    }
}

/// True when no slot occurs twice.
spec fn distinct_slots(slots: Seq<int>) -> bool {
    forall|a: int, b: int| 0 <= a < b < slots.len() ==> slots[a] != slots[b]
}

proof fn lemma_split_evenly_sum(stats: Seq<u8>, slots: Seq<int>, add_each: int, rem: int)
    requires
        add_each >= 0,
        rem >= 0,
        distinct_slots(slots),
        forall|k: int|
            0 <= k < slots.len() ==> 0 <= #[trigger] slots[k] < stats.len() && stats[slots[k]]
                + add_each + rem <= 255,
    ensures
        stat_sum(split_evenly(stats, slots, add_each, rem)) == stat_sum(stats) + add_each * slots.len()
            + (if slots.len() > 0 {
            rem
        } else {
            0
        }),
    decreases slots.len(),
{
    if slots.len() > 0 {
        let rest = slots.drop_last();
        let last = slots.last();
        assert(last == slots[slots.len() - 1]);
        assert forall|k: int| 0 <= k < rest.len() implies 0 <= #[trigger] rest[k] < stats.len()
            && stats[rest[k]] + add_each + rem <= 255 by {
            assert(rest[k] == slots[k]);
        }
        lemma_split_evenly_sum(stats, rest, add_each, rem);
        assert forall|k: int| 0 <= k < rest.len() implies rest[k] != last && 0 <= rest[k]
            < stats.len() by {
            assert(rest[k] == slots[k]);
        }
        lemma_split_evenly_frame(stats, rest, add_each, rem, last);
        let r = split_evenly(stats, rest, add_each, rem);
        let extra = if rem > 0 && slots.len() == 1 {
            rem
        } else {
            0
        };
        lemma_stat_sum_update(r, last, (stats[last] + add_each + extra) as u8);
        assert(add_each * slots.len() == add_each * rest.len() + add_each) by (nonlinear_arith)
            requires
                slots.len() == rest.len() + 1,
        ;
    }
}

proof fn lemma_raise_equal_sum(stats: Seq<u8>, slots: Seq<int>, value: int, amount: int)
    requires
        amount >= 0,
        distinct_slots(slots),
        forall|k: int|
            0 <= k < slots.len() ==> 0 <= #[trigger] slots[k] < stats.len() && stats[slots[k]]
                + amount <= 255,
    ensures
        stat_sum(raise_equal(stats, slots, value, amount)) == stat_sum(stats) + amount
            * count_equal(stats, slots, value),
    decreases slots.len(),
{
    if slots.len() > 0 {
        let rest = slots.drop_last();
        let last = slots.last();
        assert(last == slots[slots.len() - 1]);
        assert forall|k: int| 0 <= k < rest.len() implies 0 <= #[trigger] rest[k] < stats.len()
            && stats[rest[k]] + amount <= 255 by {
            assert(rest[k] == slots[k]);
        }
        lemma_raise_equal_sum(stats, rest, value, amount);
        assert forall|k: int| 0 <= k < rest.len() implies rest[k] != last && 0 <= rest[k]
            < stats.len() by {
            assert(rest[k] == slots[k]);
        }
        lemma_raise_equal_frame(stats, rest, value, amount, last);
        let r = raise_equal(stats, rest, value, amount);
        lemma_stat_sum_update(r, last, (stats[last] + amount) as u8);
        let c = count_equal(stats, rest, value);
        assert(amount * (c + 1) == amount * c + amount) by (nonlinear_arith);
    }
}

/// Spreading points adds at most the points there are to spread.
proof fn lemma_distribute_sum(stats: Seq<u8>, slots: Seq<int>, total: int)
    requires
        distinct_slots(slots),
        forall|k: int|
            0 <= k < slots.len() ==> 0 <= #[trigger] slots[k] < stats.len() && stats[slots[k]]
                + total <= 255,
    ensures
        stat_sum(distribute(stats, slots, total)) <= stat_sum(stats) + (if total > 0 {
            total
        } else {
            0
        }),
    decreases total,
{
    if total > 0 {
        let lowest = min_above(stats, slots, -1);
        let above = min_above(stats, slots, lowest);
        let second = if above == 256 {
            lowest
        } else {
            above
        };
        if lowest == second {
            let count = slots.len() as int;
            if total >= count && count > 0 {
                let add_each = total / count;
                let rem = total % count;
                assert(add_each * count + rem == total && add_each >= 0 && rem >= 0
                    && add_each <= add_each * count) by (nonlinear_arith)
                    requires
                        add_each == total / count,
                        rem == total % count,
                        count > 0,
                        total > 0,
                ;
                lemma_split_evenly_sum(stats, slots, add_each, rem);
            }
        } else {
            let lowest_count = count_equal(stats, slots, lowest);
            let difference = second - lowest;
            if total < lowest_count {
            } else if difference > 0 && total >= difference * lowest_count {
                lemma_min_above_held(stats, slots, -1);
                assert(difference <= difference * lowest_count) by (nonlinear_arith)
                    requires
                        difference >= 1,
                        lowest_count >= 1,
                ;
                let raised = raise_equal(stats, slots, lowest, difference);
                let left = total - difference * lowest_count;
                lemma_raise_equal_sum(stats, slots, lowest, difference);
                assert forall|k: int| 0 <= k < slots.len() implies 0 <= #[trigger] slots[k]
                    < raised.len() && raised[slots[k]] + left <= 255 by {
                    lemma_raise_equal_bounds(stats, slots, lowest, difference, slots[k]);
                }
                lemma_distribute_sum(raised, slots, left);
            } else if lowest_count > 0 && total / lowest_count > 0 {
                let amount = total / lowest_count;
                assert(amount <= total && amount * lowest_count <= total) by (nonlinear_arith)
                    requires
                        amount == total / lowest_count,
                        lowest_count >= 1,
                        total > 0,
                ;
                lemma_raise_equal_sum(stats, slots, lowest, amount);
            }
        }
    }
}

proof fn lemma_reduced_sum(p: Seq<u8>, n: int)
    requires
        p.len() == 16,
        0 <= n <= 16,
    ensures
        stat_sum(reduced_upto(p, n)) + pool_upto(p, n) == stat_sum(p),
    decreases n,
{
    if n == 0 {
        assert(reduced_upto(p, 0) =~= p);
    } else {
        lemma_reduced_sum(p, n - 1);
        assert(reduced_upto(p, n) =~= reduced_upto(p, n - 1).update(
            n - 1,
            reduced_value(n - 1, p[n - 1]),
        ));
        lemma_stat_sum_update(reduced_upto(p, n - 1), n - 1, reduced_value(n - 1, p[n - 1]));
    }
}

/// The Shrine of Order never creates points: the stats it leaves add up to
/// no more than the stats it was given, whenever no stat could pass 255
/// even if it received every point the shrine takes.
pub proof fn law_shrine_creates_no_points(pre: StatBlock)
    requires
        forall|j: int| 0 <= j < 16 ==> #[trigger] pre@[j] + pool_upto(pre@, 16) <= 255,
    ensures
        stat_sum(shrine_stats(pre@)) <= stat_sum(pre@),
{
    lemma_view_layout(pre);
    let p = pre@;
    let reduced = reduced_upto(p, 16);
    let slots = active_upto(p, 16);
    lemma_active_upto(p, 16);
    lemma_reduced_sum(p, 16);
    crate::shrine::lemma_pool_upto_bounds(p, 16);
    if slots.len() > 0 {
        assert forall|k: int| 0 <= k < slots.len() implies 0 <= #[trigger] slots[k] < reduced.len()
            && reduced[slots[k]] + pool_upto(p, 16) <= 255 by {
            assert(reduced[slots[k]] == reduced_value(slots[k], p[slots[k]]));
            assert(p[slots[k]] + pool_upto(p, 16) <= 255);
        }
        assert(distinct_slots(slots));
        lemma_distribute_sum(reduced, slots, pool_upto(p, 16));
    }
}

} // verus!
