use vstd::prelude::*;
use vstd::string::StringExecFns;

use crate::shrine::{shrine_of_order, shrine_spare, shrine_stats};
use crate::stats::{
    apply_derived_post_requirements, apply_post_requirements, deficit_total, derived_post,
    impossible_combination, impossible_pair, points_needed_for_post, stats_max,
    zero_to_positive_variants, zero_stats, zero_variants, block_views, StatBlock,
};
use crate::talent::{option_view, str_views, TalentCategory, ATTUNEMENT_STATS, BASE_STATS, WEAPON_STATS};
use crate::text::{append_int, append_nat, int_text, nat_text};

verus! {

/// One line per nonzero stat: prefix, name, `: `, value and a newline.
pub open spec fn named_text(prefix: Seq<char>, labels: Seq<Seq<char>>, values: Seq<u8>) -> Seq<char>
    decreases values.len(),
{
    if values.len() == 0 {
        Seq::empty()
    } else {
        let rest = named_text(prefix, labels.drop_last(), values.drop_last());
        if values.last() > 0 {
            rest + prefix + labels.last() + ": "@ + nat_text(values.last() as nat) + "\n"@
        } else {
            rest
        }
    }
}

/// The nonzero stats of a block, one per line, section by section.
pub open spec fn stat_block_text(stats: Seq<u8>, prefix: Seq<char>) -> Seq<char> {
    named_text(prefix, str_views(BASE_STATS@), stats.subrange(0, 6)) + named_text(
        prefix,
        str_views(WEAPON_STATS@),
        stats.subrange(6, 9),
    ) + named_text(prefix, str_views(ATTUNEMENT_STATS@), stats.subrange(9, 16))
}

/// The line for one changed stat: its new value and the change in brackets.
pub open spec fn change_line(label: Seq<char>, before: u8, after: u8) -> Seq<char> {
    let delta = after - before;
    label + ": "@ + nat_text(after as nat) + " "@ + (if delta >= 0 {
        "(+"@ + int_text(delta) + ")\n"@
    } else {
        "("@ + int_text(delta) + ")\n"@
    })
}

/// One line for every stat that is set afterwards or required.
pub open spec fn changes_text(
    labels: Seq<Seq<char>>,
    before: Seq<u8>,
    after: Seq<u8>,
    required: Seq<u8>,
) -> Seq<char>
    decreases after.len(),
{
    if after.len() == 0 {
        Seq::empty()
    } else {
        let rest = changes_text(
            labels.drop_last(),
            before.drop_last(),
            after.drop_last(),
            required.drop_last(),
        );
        if after.last() > 0 || required.last() > 0 {
            rest + change_line(labels.last(), before.last(), after.last())
        } else {
            rest
        }
    }
}

/// The changes of every section of a block.
pub open spec fn block_changes_text(before: Seq<u8>, after: Seq<u8>, required: Seq<u8>) -> Seq<char> {
    changes_text(
        str_views(BASE_STATS@),
        before.subrange(0, 6),
        after.subrange(0, 6),
        required.subrange(0, 6),
    ) + changes_text(
        str_views(WEAPON_STATS@),
        before.subrange(6, 9),
        after.subrange(6, 9),
        required.subrange(6, 9),
    ) + changes_text(
        str_views(ATTUNEMENT_STATS@),
        before.subrange(9, 16),
        after.subrange(9, 16),
        required.subrange(9, 16),
    )
}

/// The separator line of the report.
pub open spec fn rule_line() -> Seq<char> {
    "=========================================\n"@
}

/// The report for a build: the points left, the stats before the shrine,
/// the stats right after it, and the stats once the POST requirements are
/// trained.
pub open spec fn result_text(
    pre: Seq<u8>,
    post: Seq<u8>,
    shrine: Seq<u8>,
    final_stats: Seq<u8>,
    points_spare: int,
) -> Seq<char> {
    "=== BUILD OPTIMIZATION RESULTS ===\n\n"@ + rule_line() + "optimal build found\n"@ + rule_line()
        + "points spare: "@ + int_text(points_spare) + "\n\n"@ + rule_line() + "pre shrine stats\n"@
        + rule_line() + stat_block_text(pre, Seq::empty()) + "\n"@ + rule_line()
        + "post shrine stats - before adding points\n"@ + rule_line() + block_changes_text(
        pre,
        shrine,
        Seq::new(16, |i: int| 0u8),
    ) + "\n"@ + rule_line() + "post shrine stats - after adding points\n"@ + rule_line()
        + block_changes_text(shrine, final_stats, post)
}

/// Appends a line for every nonzero stat: prefix, name, `: ` and value.
pub fn append_named_stats<const N: usize>(
    output: &mut String,
    prefix: &str,
    labels: &[&'static str; N],
    values: &[u8; N],
)
    ensures
        final(output)@ == old(output)@ + named_text(prefix@, str_views(labels@), values@),
{
    let ghost lv = str_views(labels@);
    let mut i: usize = 0;
    assert(values@.take(0) =~= Seq::<u8>::empty());
    assert(output@ =~= old(output)@ + named_text(prefix@, lv.take(0), values@.take(0)));
    while i < N
        invariant
            i <= N,
            lv == str_views(labels@),
            output@ == old(output)@ + named_text(prefix@, lv.take(i as int), values@.take(i as int)),
        decreases N - i,
    {
        let label = labels[i];
        let value = values[i];
        proof {
            assert(lv.take(i + 1).drop_last() =~= lv.take(i as int));
            assert(values@.take(i + 1).drop_last() =~= values@.take(i as int));
            assert(lv[i as int] == label@);
        }
        if value > 0 {
            output.append(prefix);
            output.append(label);
            output.append(": ");
            append_nat(output, value as u64);
            output.append("\n");
        }
        assert(output@ =~= old(output)@ + named_text(prefix@, lv.take(i + 1), values@.take(i + 1)));
        i += 1;
    }
    assert(lv.take(N as int) =~= lv);
    assert(values@.take(N as int) =~= values@);
}

/// Appends the nonzero stats of a block, section by section.
pub fn append_stat_block(output: &mut String, stats: &StatBlock, prefix: &str)
    ensures
        final(output)@ == old(output)@ + stat_block_text(stats@, prefix@),
{
    append_named_stats(output, prefix, &BASE_STATS, &stats.base);
    append_named_stats(output, prefix, &WEAPON_STATS, &stats.weapon);
    append_named_stats(output, prefix, &ATTUNEMENT_STATS, &stats.attunement);
    assert(stats.base@ =~= stats@.subrange(0, 6));
    assert(stats.weapon@ =~= stats@.subrange(6, 9));
    assert(stats.attunement@ =~= stats@.subrange(9, 16));
    assert(output@ =~= old(output)@ + stat_block_text(stats@, prefix@));
}

/// Appends a line for every stat that is set afterwards or required: its
/// new value and, in brackets, how much it changed.
pub fn append_changed_stats<const N: usize>(
    output: &mut String,
    labels: &[&'static str; N],
    before: &[u8; N],
    after: &[u8; N],
    required: &[u8; N],
)
    ensures
        final(output)@ == old(output)@ + changes_text(
            str_views(labels@),
            before@,
            after@,
            required@,
        ),
{
    let ghost lv = str_views(labels@);
    let mut i: usize = 0;
    assert(after@.take(0) =~= Seq::<u8>::empty());
    assert(output@ =~= old(output)@ + changes_text(
        lv.take(0),
        before@.take(0),
        after@.take(0),
        required@.take(0),
    ));
    while i < N
        invariant
            i <= N,
            lv == str_views(labels@),
            output@ == old(output)@ + changes_text(
                lv.take(i as int),
                before@.take(i as int),
                after@.take(i as int),
                required@.take(i as int),
            ),
        decreases N - i,
    {
        let label = labels[i];
        let b = before[i];
        let a = after[i];
        let q = required[i];
        proof {
            assert(lv.take(i + 1).drop_last() =~= lv.take(i as int));
            assert(before@.take(i + 1).drop_last() =~= before@.take(i as int));
            assert(after@.take(i + 1).drop_last() =~= after@.take(i as int));
            assert(required@.take(i + 1).drop_last() =~= required@.take(i as int));
            assert(lv[i as int] == label@);
        }
        if a > 0 || q > 0 {
            let delta = a as i32 - b as i32;
            output.append(label);
            output.append(": ");
            append_nat(output, a as u64);
            output.append(" ");
            if delta >= 0 {
                output.append("(+");
                append_int(output, delta);
                output.append(")\n");
            } else {
                output.append("(");
                append_int(output, delta);
                output.append(")\n");
            }
        }
        assert(output@ =~= old(output)@ + changes_text(
            lv.take(i + 1),
            before@.take(i + 1),
            after@.take(i + 1),
            required@.take(i + 1),
        ));
        i += 1;
    }
    assert(lv.take(N as int) =~= lv);
    assert(before@.take(N as int) =~= before@);
    assert(after@.take(N as int) =~= after@);
    assert(required@.take(N as int) =~= required@);
}

/// Appends the stats the shrine changed, section by section.
pub fn append_diff_block(output: &mut String, pre: &StatBlock, shrine: &StatBlock)
    ensures
        final(output)@ == old(output)@ + block_changes_text(
            pre@,
            shrine@,
            Seq::new(16, |i: int| 0u8),
        ),
{
    let zero_base = [0u8; 6];
    let zero_weapon = [0u8; 3];
    let zero_attunement = [0u8; 7];
    append_changed_stats(output, &BASE_STATS, &pre.base, &shrine.base, &zero_base);
    append_changed_stats(output, &WEAPON_STATS, &pre.weapon, &shrine.weapon, &zero_weapon);
    append_changed_stats(
        output,
        &ATTUNEMENT_STATS,
        &pre.attunement,
        &shrine.attunement,
        &zero_attunement,
    );
    let ghost zeros = Seq::new(16, |i: int| 0u8);
    assert(pre.base@ =~= pre@.subrange(0, 6));
    assert(pre.weapon@ =~= pre@.subrange(6, 9));
    assert(pre.attunement@ =~= pre@.subrange(9, 16));
    assert(shrine.base@ =~= shrine@.subrange(0, 6));
    assert(shrine.weapon@ =~= shrine@.subrange(6, 9));
    assert(shrine.attunement@ =~= shrine@.subrange(9, 16));
    assert(zero_base@ =~= zeros.subrange(0, 6));
    assert(zero_weapon@ =~= zeros.subrange(6, 9));
    assert(zero_attunement@ =~= zeros.subrange(9, 16));
    assert(output@ =~= old(output)@ + block_changes_text(pre@, shrine@, zeros));
}

/// Appends, section by section, the stats after training for the POST
/// requirements.
pub fn append_added_block(
    output: &mut String,
    shrine: &StatBlock,
    final_stats: &StatBlock,
    post: &StatBlock,
)
    ensures
        final(output)@ == old(output)@ + block_changes_text(shrine@, final_stats@, post@),
{
    append_changed_stats(output, &BASE_STATS, &shrine.base, &final_stats.base, &post.base);
    append_changed_stats(output, &WEAPON_STATS, &shrine.weapon, &final_stats.weapon, &post.weapon);
    append_changed_stats(
        output,
        &ATTUNEMENT_STATS,
        &shrine.attunement,
        &final_stats.attunement,
        &post.attunement,
    );
    assert(shrine.base@ =~= shrine@.subrange(0, 6));
    assert(shrine.weapon@ =~= shrine@.subrange(6, 9));
    assert(shrine.attunement@ =~= shrine@.subrange(9, 16));
    assert(final_stats.base@ =~= final_stats@.subrange(0, 6));
    assert(final_stats.weapon@ =~= final_stats@.subrange(6, 9));
    assert(final_stats.attunement@ =~= final_stats@.subrange(9, 16));
    assert(post.base@ =~= post@.subrange(0, 6));
    assert(post.weapon@ =~= post@.subrange(6, 9));
    assert(post.attunement@ =~= post@.subrange(9, 16));
    assert(output@ =~= old(output)@ + block_changes_text(shrine@, final_stats@, post@));
}

/// The report for a build.
pub fn format_result(
    pre: StatBlock,
    post: StatBlock,
    shrine: StatBlock,
    final_stats: StatBlock,
    points_spare: i32,
) -> (r: String)
    ensures
        r@ == result_text(pre@, post@, shrine@, final_stats@, points_spare as int),
{
    let mut output = String::new();
    output.append("=== BUILD OPTIMIZATION RESULTS ===\n\n");
    output.append("=========================================\n");
    output.append("optimal build found\n");
    output.append("=========================================\n");
    output.append("points spare: ");
    append_int(&mut output, points_spare);
    output.append("\n\n");

    output.append("=========================================\n");
    output.append("pre shrine stats\n");
    output.append("=========================================\n");
    proof {
        reveal_strlit("");
    }
    append_stat_block(&mut output, &pre, "");
    assert(""@ =~= Seq::<char>::empty());
    output.append("\n");

    output.append("=========================================\n");
    output.append("post shrine stats - before adding points\n");
    output.append("=========================================\n");
    append_diff_block(&mut output, &pre, &shrine);
    output.append("\n");

    output.append("=========================================\n");
    output.append("post shrine stats - after adding points\n");
    output.append("=========================================\n");
    append_added_block(&mut output, &shrine, &final_stats, &post);
    assert(output@ =~= result_text(pre@, post@, shrine@, final_stats@, points_spare as int));
    output
}

/// A requirement handed to the optimizer: a talent (or manual stats) with the
/// stats it needs and when it needs them.
#[derive(Debug)]
pub struct OwnedTalentPrereq {
    pub name: String,
    pub stats: StatBlock,
    pub category: TalentCategory,
}

impl Clone for OwnedTalentPrereq {
    fn clone(&self) -> (r: Self)
        ensures
            r.name@ == self.name@,
            r.stats == self.stats,
            r.category == self.category,
    {
        OwnedTalentPrereq { name: self.name.clone(), stats: self.stats, category: self.category }
    }
}

/// The best build found: the points left over and its report.
#[derive(Debug)]
pub struct OptimizationResult {
    pub points_spare: i32,
    pub output: String,
}

impl Clone for OptimizationResult {
    fn clone(&self) -> (r: Self)
        ensures
            r.points_spare == self.points_spare,
            r.output@ == self.output@,
    {
        OptimizationResult { points_spare: self.points_spare, output: self.output.clone() }
    }
}

/// A candidate build: the points left over and its report.
pub type Candidate = (int, Seq<char>);

/// The view of an optional result.
pub open spec fn result_view(r: Option<OptimizationResult>) -> Option<Candidate> {
    match r {
        Some(x) => Some((x.points_spare as int, x.output@)),
        None => None,
    }
}

/// The stats of the requirements of one category, in order.
pub open spec fn blocks_of(ps: Seq<OwnedTalentPrereq>, c: TalentCategory) -> Seq<StatBlock>
    decreases ps.len(),
{
    if ps.len() == 0 {
        Seq::empty()
    } else {
        let r = blocks_of(ps.drop_last(), c);
        if ps.last().category == c {
            r.push(ps.last().stats)
        } else {
            r
        }
    }
}

/// The stats of a list of requirements.
pub open spec fn prereq_blocks(ps: Seq<OwnedTalentPrereq>) -> Seq<StatBlock> {
    ps.map_values(|p: OwnedTalentPrereq| p.stats)
}

/// `base` raised to every block in turn.
pub open spec fn fold_max(base: Seq<u8>, blocks: Seq<StatBlock>) -> Seq<u8>
    decreases blocks.len(),
{
    if blocks.len() == 0 {
        base
    } else {
        stats_max(fold_max(base, blocks.drop_last()), blocks.last()@)
    }
}

/// `base` with the POST demands of every PRE block added in turn.
pub open spec fn fold_derived(base: Seq<u8>, blocks: Seq<StatBlock>) -> Seq<u8>
    decreases blocks.len(),
{
    if blocks.len() == 0 {
        base
    } else {
        derived_post(fold_derived(base, blocks.drop_last()), blocks.last()@)
    }
}

/// True when the ANY requirement at `index` counts as PRE in combination
/// `combo`: its bit is clear.
pub open spec fn treat_as_pre(combo: usize, index: int) -> bool {
    ((combo >> (index as usize)) & 1usize) == 0usize
}

/// PRE and POST stats after adding every ANY block on the side its bit in
/// `combo` chooses.
pub open spec fn any_fold(pre: Seq<u8>, post: Seq<u8>, anys: Seq<StatBlock>, combo: usize) -> (
    Seq<u8>,
    Seq<u8>,
)
    decreases anys.len(),
{
    if anys.len() == 0 {
        (pre, post)
    } else {
        let (p, q) = any_fold(pre, post, anys.drop_last(), combo);
        let a = anys.last();
        if treat_as_pre(combo, anys.len() - 1) {
            (stats_max(p, a@), derived_post(q, a@))
        } else {
            (p, stats_max(q, a@))
        }
    }
}

/// The PRE and POST requirements of one combination.
pub open spec fn combo_pre_post(
    pres: Seq<StatBlock>,
    posts: Seq<StatBlock>,
    anys: Seq<StatBlock>,
    combo: usize,
) -> (Seq<u8>, Seq<u8>) {
    any_fold(
        fold_max(zero_stats(), pres),
        fold_max(fold_derived(zero_stats(), pres), posts),
        anys,
        combo,
    )
}

/// The build a PRE variant gives, when the points after the shrine suffice
/// for the POST requirements.
pub open spec fn variant_candidate(v: Seq<u8>, post: Seq<u8>) -> Option<Candidate> {
    let sh = shrine_stats(v);
    let spare = shrine_spare(v);
    let needed = deficit_total(sh, post);
    if needed > spare {
        None
    } else {
        let points = spare - needed;
        Some((points, result_text(v, post, sh, stats_max(sh, post), points)))
    }
}

/// Keeps the best so far unless the candidate leaves strictly more points.
pub open spec fn improve(best: Option<Candidate>, c: Option<Candidate>) -> Option<Candidate> {
    match c {
        None => best,
        Some(x) => match best {
            None => Some(x),
            Some(b) => if x.0 > b.0 {
                Some(x)
            } else {
                best
            },
        },
    }
}

/// The best build after trying the given PRE variants in order.
pub open spec fn best_over_variants(best: Option<Candidate>, vs: Seq<Seq<u8>>, post: Seq<u8>) -> Option<
    Candidate,
>
    decreases vs.len(),
{
    if vs.len() == 0 {
        best
    } else {
        improve(best_over_variants(best, vs.drop_last(), post), variant_candidate(vs.last(), post))
    }
}

/// The best build after trying one more combination.
pub open spec fn best_for_combo(
    best: Option<Candidate>,
    pres: Seq<StatBlock>,
    posts: Seq<StatBlock>,
    anys: Seq<StatBlock>,
    combo: usize,
) -> Option<Candidate> {
    let (pre, post) = combo_pre_post(pres, posts, anys, combo);
    if impossible_pair(pre, post) {
        best
    } else {
        best_over_variants(best, zero_variants(pre, post), post)
    }
}

/// The best build over the first `k` combinations.
pub open spec fn best_upto(
    pres: Seq<StatBlock>,
    posts: Seq<StatBlock>,
    anys: Seq<StatBlock>,
    k: int,
) -> Option<Candidate>
    decreases k,
{
    if k <= 0 {
        None
    } else {
        best_for_combo(best_upto(pres, posts, anys, k - 1), pres, posts, anys, (k - 1) as usize)
    }
}

/// True when there are too many ANY requirements to try every combination.
pub open spec fn too_many_any(ps: Seq<OwnedTalentPrereq>) -> bool {
    (blocks_of(ps, TalentCategory::Any).len() as u32) >= usize::BITS
}

/// Number of ways to place the ANY requirements, when it fits a `usize`.
pub open spec fn combination_count(ps: Seq<OwnedTalentPrereq>) -> int {
    (1usize << (blocks_of(ps, TalentCategory::Any).len() as u32)) as int
}

/// What the optimizer answers for a list of requirements: the best build
/// over every way to place the ANY requirements (the first one found among
/// those that leave the most points), or the reason there is none.
pub open spec fn optimize_outcome(ps: Seq<OwnedTalentPrereq>) -> Result<Candidate, Seq<char>> {
    if too_many_any(ps) {
        Err("Too many ANY talents to evaluate."@)
    } else {
        match best_upto(
            blocks_of(ps, TalentCategory::Pre),
            blocks_of(ps, TalentCategory::Post),
            blocks_of(ps, TalentCategory::Any),
            combination_count(ps),
        ) {
            Some(c) => Ok(c),
            None => Err("No valid build found."@),
        }
    }
}

/// True when the shift of the combination count cannot go wrong: there are
/// fewer ANY requirements than a `u32` holds, or their count, cut to a
/// `u32`, is already too large.
pub open spec fn any_count_fits(ps: Seq<OwnedTalentPrereq>) -> bool {
    let n = blocks_of(ps, TalentCategory::Any).len();
    n <= u32::MAX || (n as u32) >= usize::BITS
}

/// The PRE and POST requirements of one way to place the ANY requirements.
fn combination_stats(
    fixed_pre: &Vec<OwnedTalentPrereq>,
    fixed_post: &Vec<OwnedTalentPrereq>,
    any: &Vec<OwnedTalentPrereq>,
    combo: usize,
) -> (r: (StatBlock, StatBlock))
    requires
        any@.len() < usize::BITS,
    ensures
        (r.0@, r.1@) == combo_pre_post(
            prereq_blocks(fixed_pre@),
            prereq_blocks(fixed_post@),
            prereq_blocks(any@),
            combo,
        ),
{
    let ghost pb = prereq_blocks(fixed_pre@);
    let ghost qb = prereq_blocks(fixed_post@);
    let ghost ab = prereq_blocks(any@);
    let mut current_pre = StatBlock::default();
    let mut current_post = StatBlock::default();
    let mut k: usize = 0;
    assert(pb.take(0) =~= Seq::<StatBlock>::empty());
    while k < fixed_pre.len()
        invariant
            k <= fixed_pre@.len(),
            pb == prereq_blocks(fixed_pre@),
            current_pre@ == fold_max(zero_stats(), pb.take(k as int)),
            current_post@ == fold_derived(zero_stats(), pb.take(k as int)),
        decreases fixed_pre@.len() - k,
    {
        let stats = fixed_pre[k].stats;
        proof {
            assert(pb.take(k + 1).drop_last() =~= pb.take(k as int));
            assert(pb[k as int] == stats);
        }
        current_pre.max_with(&stats);
        apply_derived_post_requirements(&mut current_post, &stats);
        k += 1;
    }
    assert(pb.take(fixed_pre@.len() as int) =~= pb);
    let ghost post0 = current_post@;
    let mut k: usize = 0;
    assert(qb.take(0) =~= Seq::<StatBlock>::empty());
    while k < fixed_post.len()
        invariant
            k <= fixed_post@.len(),
            qb == prereq_blocks(fixed_post@),
            current_post@ == fold_max(post0, qb.take(k as int)),
        decreases fixed_post@.len() - k,
    {
        let stats = fixed_post[k].stats;
        proof {
            assert(qb.take(k + 1).drop_last() =~= qb.take(k as int));
            assert(qb[k as int] == stats);
        }
        current_post.max_with(&stats);
        k += 1;
    }
    assert(qb.take(fixed_post@.len() as int) =~= qb);
    let ghost pre1 = current_pre@;
    let ghost post1 = current_post@;
    let mut index: usize = 0;
    assert(ab.take(0) =~= Seq::<StatBlock>::empty());
    while index < any.len()
        invariant
            index <= any@.len(),
            any@.len() < usize::BITS,
            ab == prereq_blocks(any@),
            (current_pre@, current_post@) == any_fold(pre1, post1, ab.take(index as int), combo),
        decreases any@.len() - index,
    {
        let stats = any[index].stats;
        proof {
            assert(ab.take(index + 1).drop_last() =~= ab.take(index as int));
            assert(ab[index as int] == stats);
        }
        let treat_as_pre = ((combo >> index) & 1) == 0;
        if treat_as_pre {
            current_pre.max_with(&stats);
            apply_derived_post_requirements(&mut current_post, &stats);
        } else {
            current_post.max_with(&stats);
        }
        index += 1;
    }
    assert(ab.take(any@.len() as int) =~= ab);
    (current_pre, current_post)
}

/// Tries every PRE variant in order, keeping the build that leaves the most
/// points (the first such one).
fn consider_variants(
    variants: &Vec<StatBlock>,
    post: &StatBlock,
    best: &mut Option<OptimizationResult>,
)
    ensures
        result_view(*final(best)) == best_over_variants(
            result_view(*old(best)),
            block_views(variants@),
            post@,
        ),
{
    let ghost vs = block_views(variants@);
    let mut j: usize = 0;
    assert(vs.take(0) =~= Seq::<Seq<u8>>::empty());
    while j < variants.len()
        invariant
            j <= variants@.len(),
            vs == block_views(variants@),
            result_view(*best) == best_over_variants(result_view(*old(best)), vs.take(j as int), post@),
        decreases variants@.len() - j,
    {
        let pre_variant = variants[j];
        proof {
            assert(vs.take(j + 1).drop_last() =~= vs.take(j as int));
            assert(vs[j as int] == pre_variant@);
        }
        match shrine_of_order(&pre_variant) {
            Some((shrine, shrine_points_spare)) => {
                let points_needed = points_needed_for_post(&shrine, post);
                if points_needed <= shrine_points_spare {
                    let final_stats = apply_post_requirements(&shrine, post);
                    let points_spare = shrine_points_spare - points_needed;
                    let result = OptimizationResult {
                        points_spare,
                        output: format_result(pre_variant, *post, shrine, final_stats, points_spare),
                    };
                    let replace = match best {
                        Some(current) => result.points_spare > current.points_spare,
                        None => true,
                    };
                    if replace {
                        *best = Some(result);
                    }
                }
            },
            None => {},
        }
        j += 1;
    }
    assert(vs.take(variants@.len() as int) =~= vs);
}

/// Remembers the requirements, searches for the best build, and records the
/// outcome.
pub struct BuildOptimizer {
    pub prerequisites: Vec<OwnedTalentPrereq>,
    pub best_result: Option<OptimizationResult>,
    pub error_message: Option<String>,
}

impl BuildOptimizer {
    /// An optimizer with no requirements and no outcome yet.
    pub fn new() -> (r: Self)
        ensures
            r.prerequisites@.len() == 0,
            r.best_result is None,
            r.error_message is None,
    {
        BuildOptimizer { prerequisites: Vec::new(), best_result: None, error_message: None }
    }

    /// Searches every way to place the ANY requirements before or after the
    /// Shrine of Order, and every PRE value worth trying for the stats only
    /// needed after it, for the build that leaves the most points spare.
    pub fn optimize_build(&mut self, prerequisites: Vec<OwnedTalentPrereq>) -> (r: Result<
        OptimizationResult,
        String,
    >)
        requires
            any_count_fits(prerequisites@),
        ensures
            final(self).prerequisites@ == prerequisites@,
            match optimize_outcome(prerequisites@) {
                Ok(c) => match r {
                    Ok(res) => (res.points_spare as int, res.output@) == c && result_view(
                        final(self).best_result,
                    ) == Some(c) && final(self).error_message is None,
                    Err(_) => false,
                },
                Err(e) => match r {
                    Ok(_) => false,
                    Err(msg) => msg@ == e && final(self).best_result is None && option_view(
                        final(self).error_message,
                    ) == (if too_many_any(prerequisites@) {
                        None::<Seq<char>>
                    } else {
                        Some(e)
                    }),
                },
            },
    {
        self.prerequisites = prerequisites;
        self.best_result = None;
        self.error_message = None;

        let ghost ps = self.prerequisites@;
        let mut fixed_pre: Vec<OwnedTalentPrereq> = Vec::new();
        let mut fixed_post: Vec<OwnedTalentPrereq> = Vec::new();
        let mut any: Vec<OwnedTalentPrereq> = Vec::new();
        let mut k: usize = 0;
        assert(ps.take(0) =~= Seq::<OwnedTalentPrereq>::empty());
        while k < self.prerequisites.len()
            invariant
                k <= self.prerequisites@.len(),
                ps == self.prerequisites@,
                prereq_blocks(fixed_pre@) == blocks_of(ps.take(k as int), TalentCategory::Pre),
                prereq_blocks(fixed_post@) == blocks_of(ps.take(k as int), TalentCategory::Post),
                prereq_blocks(any@) == blocks_of(ps.take(k as int), TalentCategory::Any),
            decreases self.prerequisites@.len() - k,
        {
            let prereq = self.prerequisites[k].clone();
            proof {
                assert(ps.take(k + 1).drop_last() =~= ps.take(k as int));
                assert(ps.take(k + 1).last() == ps[k as int]);
            }
            let ghost (a, b, c) = (fixed_pre@, fixed_post@, any@);
            match prereq.category {
                TalentCategory::Pre => {
                    fixed_pre.push(prereq);
                },
                TalentCategory::Post => {
                    fixed_post.push(prereq);
                },
                TalentCategory::Any => {
                    any.push(prereq);
                },
            }
            proof {
                assert(prereq_blocks(fixed_pre@) =~= blocks_of(ps.take(k + 1), TalentCategory::Pre));
                assert(prereq_blocks(fixed_post@) =~= blocks_of(ps.take(k + 1), TalentCategory::Post));
                assert(prereq_blocks(any@) =~= blocks_of(ps.take(k + 1), TalentCategory::Any));
            }
            k += 1;
        }
        assert(ps.take(ps.len() as int) =~= ps);

        let shift = any.len() as u32;
        if shift >= usize::BITS {
            return Err("Too many ANY talents to evaluate.".to_owned());
        }
        let total_combinations: usize = 1usize << shift;

        let mut best: Option<OptimizationResult> = None;
        let mut combo: usize = 0;
        while combo < total_combinations
            invariant
                combo <= total_combinations,
                any@.len() < usize::BITS,
                result_view(best) == best_upto(
                    prereq_blocks(fixed_pre@),
                    prereq_blocks(fixed_post@),
                    prereq_blocks(any@),
                    combo as int,
                ),
            decreases total_combinations - combo,
        {
            let (current_pre, current_post) = combination_stats(&fixed_pre, &fixed_post, &any, combo);
            if !impossible_combination(&current_pre, &current_post) {
                let variants = zero_to_positive_variants(&current_pre, &current_post);
                consider_variants(&variants, &current_post, &mut best);
            }
            combo += 1;
        }

        match best {
            Some(result) => {
                self.best_result = Some(result.clone());
                Ok(result)
            },
            None => {
                let error = "No valid build found.".to_owned();
                self.error_message = Some(error.clone());
                Err(error)
            },
        }
    }
}

} // verus!
