use vstd::prelude::*;
use vstd::string::StringExecFns;

use crate::optimizer::{
    append_stat_block, optimize_outcome, stat_block_text, BuildOptimizer, OwnedTalentPrereq,
};
use crate::stats::{
    apply_derived_post_requirements, clamp_to_minimums, derived_post, stats_max, zero_stats,
    StatBlock,
};
use crate::optimizer::{blocks_of, fold_max};
use crate::talent::{
    blob_tokens, category_label, display_text, Talent, TalentCategory, TalentView,
};
use crate::text::{
    append_int, append_nat, int_text, joined, lowercase, nat_text, occurs_in, text_contains,
    to_lowercase, trim_text, trimmed,
};

verus! {

/// A talent chosen for the build, with when it has to be satisfied.
#[derive(Debug)]
pub struct SelectedTalent {
    pub talent: Talent,
    pub category: TalentCategory,
}

/// The tab the planner shows.
#[derive(Clone, Copy, Debug, PartialEq, Eq, Structural)]
pub enum ActiveTab {
    Talents,
    Stats,
    Output,
}

/// The state of the build planner: the known talents, the chosen ones, the
/// stat targets, and the last optimizer output.
pub struct DeepwokenApp {
    pub talents: Vec<Talent>,
    pub selected_index: Option<usize>,
    pub selected_talents: Vec<SelectedTalent>,
    pub selected_selected_index: Option<usize>,
    pub search: String,
    pub status: String,
    pub active_tab: ActiveTab,
    pub pre_stats: StatBlock,
    pub post_stats: StatBlock,
    pub min_pre: StatBlock,
    pub min_post: StatBlock,
    pub optimizer: BuildOptimizer,
    pub output: String,
}

/// The stats of the chosen talents of one category, in order.
pub open spec fn selected_blocks(sel: Seq<SelectedTalent>, c: TalentCategory) -> Seq<StatBlock>
    decreases sel.len(),
{
    if sel.len() == 0 {
        Seq::empty()
    } else {
        let r = selected_blocks(sel.drop_last(), c);
        if sel.last().category == c {
            r.push(sel.last().talent.stats)
        } else {
            r
        }
    }
}

/// The search text of a talent.
pub open spec fn blob_text(t: TalentView) -> Seq<char> {
    joined(blob_tokens(t), " "@)
}

/// The indices below `n` of the talents whose search text holds the needle
/// (all of them for an empty needle).
pub open spec fn matching_indices(ts: Seq<TalentView>, needle: Seq<char>, n: int) -> Seq<usize>
    decreases n,
{
    if n <= 0 {
        Seq::empty()
    } else {
        let r = matching_indices(ts, needle, n - 1);
        if needle.len() == 0 || occurs_in(blob_text(ts[n - 1]), needle) {
            r.push((n - 1) as usize)
        } else {
            r
        }
    }
}

/// The views of a list of talents.
pub open spec fn views_of(ts: Seq<Talent>) -> Seq<TalentView> {
    ts.map_values(|t: Talent| t@)
}

/// A requirement as the optimizer sees it: name, stats, category.
pub open spec fn prereq_view(p: OwnedTalentPrereq) -> (Seq<char>, StatBlock, TalentCategory) {
    (p.name@, p.stats, p.category)
}

/// The views of a list of requirements.
pub open spec fn prereq_views(ps: Seq<OwnedTalentPrereq>) -> Seq<(Seq<char>, StatBlock, TalentCategory)> {
    ps.map_values(|p: OwnedTalentPrereq| prereq_view(p))
}

/// The requirements handed to the optimizer: every chosen talent, then the
/// manual PRE stats and the manual POST stats when they are set.
pub open spec fn planned_prereqs(sel: Seq<SelectedTalent>, pre: StatBlock, post: StatBlock) -> Seq<
    (Seq<char>, StatBlock, TalentCategory),
> {
    let chosen = sel.map_values(
        |s: SelectedTalent| (display_text(s.talent@), s.talent.stats, s.category),
    );
    let with_pre = if pre@ != zero_stats() {
        chosen.push(("Manual PRE"@, pre, TalentCategory::Pre))
    } else {
        chosen
    };
    if post@ != zero_stats() {
        with_pre.push(("Manual POST"@, post, TalentCategory::Post))
    } else {
        with_pre
    }
}

/// The description of each requirement: a bullet with its name and category,
/// then its stats indented.
pub open spec fn prereqs_text(ps: Seq<(Seq<char>, StatBlock, TalentCategory)>) -> Seq<char>
    decreases ps.len(),
{
    if ps.len() == 0 {
        Seq::empty()
    } else {
        let p = ps.last();
        prereqs_text(ps.drop_last()) + "• "@ + p.0 + " ("@ + category_label(p.2) + ")\n"@
            + stat_block_text(p.1@, "  "@)
    }
}

/// The listing of what is handed to the optimizer.
pub open spec fn debug_text(ps: Seq<(Seq<char>, StatBlock, TalentCategory)>) -> Seq<char> {
    "=== DEBUG: Passing to optimizer ===\n"@ + "Total prerequisites: "@ + nat_text(ps.len()) + "\n"@
        + prereqs_text(ps) + "\n"@
}

impl DeepwokenApp {
    /// The selection indices point into their lists.
    pub open spec fn wf(&self) -> bool {
        &&& self.selection_in_range()
        &&& self.chosen_in_range()
    }

    /// The talent under the cursor, if any, is one of the talents.
    pub open spec fn selection_in_range(&self) -> bool {
        self.selected_index matches Some(i) ==> i < self.talents@.len()
    }

    /// The chosen talent under the cursor, if any, is one of the chosen ones.
    pub open spec fn chosen_in_range(&self) -> bool {
        self.selected_selected_index matches Some(i) ==> i < self.selected_talents@.len()
    }

    /// A planner over the talents that were loaded, or with none and the
    /// reason in the status when loading failed.
    pub fn new(loaded: Result<(Vec<Talent>, String), String>) -> (r: Self)
        ensures
            r.wf(),
            r.selected_index is None,
            r.selected_talents@.len() == 0,
            r.selected_selected_index is None,
            r.search@.len() == 0,
            r.active_tab == ActiveTab::Talents,
            r.pre_stats@ == zero_stats(),
            r.post_stats@ == zero_stats(),
            r.min_pre@ == zero_stats(),
            r.min_post@ == zero_stats(),
            r.output@.len() == 0,
            r.optimizer.prerequisites@.len() == 0,
            r.optimizer.best_result is None,
            r.optimizer.error_message is None,
            match loaded {
                Ok((talents, status)) => r.talents@ == talents@ && r.status@ == status@,
                Err(error) => r.talents@.len() == 0 && r.status@ == "Failed to load talents: "@
                    + error@,
            },
    {
        match loaded {
            Ok((talents, status)) => DeepwokenApp {
                talents,
                selected_index: None,
                selected_talents: Vec::new(),
                selected_selected_index: None,
                search: String::new(),
                status,
                active_tab: ActiveTab::Talents,
                pre_stats: StatBlock::default(),
                post_stats: StatBlock::default(),
                min_pre: StatBlock::default(),
                min_post: StatBlock::default(),
                optimizer: BuildOptimizer::new(),
                output: String::new(),
            },
            Err(error) => {
                let mut status = String::from_str("Failed to load talents: ");
                status.append(error.as_str());
                DeepwokenApp {
                    talents: Vec::new(),
                    selected_index: None,
                    selected_talents: Vec::new(),
                    selected_selected_index: None,
                    search: String::new(),
                    status,
                    active_tab: ActiveTab::Talents,
                    pre_stats: StatBlock::default(),
                    post_stats: StatBlock::default(),
                    min_pre: StatBlock::default(),
                    min_post: StatBlock::default(),
                    optimizer: BuildOptimizer::new(),
                    output: String::new(),
                }
            },
        }
    }

    /// The indices of the talents matching the search text, trimmed and in
    /// lower case; every index when it is empty.
    pub fn filtered_talents(&self) -> (r: Vec<usize>)
        ensures
            r@ == matching_indices(
                views_of(self.talents@),
                lowercase(trimmed(self.search@)),
                self.talents@.len() as int,
            ),
    {
        let needle = to_lowercase(trim_text(self.search.as_str()));
        let ghost ts = views_of(self.talents@);
        let mut out: Vec<usize> = Vec::new();
        let mut i: usize = 0;
        while i < self.talents.len()
            invariant
                i <= self.talents@.len(),
                ts == views_of(self.talents@),
                needle@ == lowercase(trimmed(self.search@)),
                out@ == matching_indices(ts, needle@, i as int),
            decreases self.talents@.len() - i,
        {
            let keep = needle.as_str().is_empty() || text_contains(
                self.talents[i].search_blob().as_str(),
                needle.as_str(),
            );
            proof {
                assert(ts[i as int] == self.talents@[i as int]@);
            }
            if keep {
                out.push(i);
            }
            i += 1;
        }
        out
    }

    /// The stat minimums follow from the chosen talents: PRE minimums from the
    /// PRE talents, POST minimums from the POST talents and from what the PRE
    /// minimums demand after the shrine, and the stat targets reset to them.
    pub open spec fn minimums_hold(&self) -> bool {
        &&& self.min_pre@ == fold_max(
            zero_stats(),
            selected_blocks(self.selected_talents@, TalentCategory::Pre),
        )
        &&& self.min_post@ == derived_post(
            fold_max(zero_stats(), selected_blocks(self.selected_talents@, TalentCategory::Post)),
            self.min_pre@,
        )
        &&& self.pre_stats@ == stats_max(zero_stats(), self.min_pre@)
        &&& self.post_stats@ == stats_max(zero_stats(), self.min_post@)
    }

    /// Recomputes the stat minimums from the chosen talents and resets the
    /// stat targets to them.
    pub fn recalculate_stat_minimums(&mut self)
        ensures
            final(self).minimums_hold(),
            final(self).talents == old(self).talents,
            final(self).selected_index == old(self).selected_index,
            final(self).selected_talents == old(self).selected_talents,
            final(self).selected_selected_index == old(self).selected_selected_index,
            final(self).search == old(self).search,
            final(self).status == old(self).status,
            final(self).active_tab == old(self).active_tab,
            final(self).optimizer == old(self).optimizer,
            final(self).output == old(self).output,
    {
        self.min_pre = StatBlock::default();
        self.min_post = StatBlock::default();
        let ghost sel = self.selected_talents@;
        let mut k: usize = 0;
        assert(sel.take(0) =~= Seq::<SelectedTalent>::empty());
        while k < self.selected_talents.len()
            invariant
                k <= self.selected_talents@.len(),
                sel == self.selected_talents@,
                self.min_pre@ == fold_max(
                    zero_stats(),
                    selected_blocks(sel.take(k as int), TalentCategory::Pre),
                ),
                self.min_post@ == fold_max(
                    zero_stats(),
                    selected_blocks(sel.take(k as int), TalentCategory::Post),
                ),
                self.talents == old(self).talents,
                self.selected_index == old(self).selected_index,
                self.selected_talents == old(self).selected_talents,
                self.selected_selected_index == old(self).selected_selected_index,
                self.search == old(self).search,
                self.status == old(self).status,
                self.active_tab == old(self).active_tab,
                self.optimizer == old(self).optimizer,
                self.output == old(self).output,
            decreases self.selected_talents@.len() - k,
        {
            proof {
                assert(sel.take(k + 1).drop_last() =~= sel.take(k as int));
                assert(sel.take(k + 1).last() == sel[k as int]);
                let c = sel[k as int].category;
                let st = sel[k as int].talent.stats;
                assert(selected_blocks(sel.take(k + 1), TalentCategory::Pre) == (if c
                    == TalentCategory::Pre {
                    selected_blocks(sel.take(k as int), TalentCategory::Pre).push(st)
                } else {
                    selected_blocks(sel.take(k as int), TalentCategory::Pre)
                }));
                assert(selected_blocks(sel.take(k + 1), TalentCategory::Post) == (if c
                    == TalentCategory::Post {
                    selected_blocks(sel.take(k as int), TalentCategory::Post).push(st)
                } else {
                    selected_blocks(sel.take(k as int), TalentCategory::Post)
                }));
                let pb = selected_blocks(sel.take(k as int), TalentCategory::Pre).push(st);
                assert(pb.drop_last() =~= selected_blocks(sel.take(k as int), TalentCategory::Pre));
                let qb = selected_blocks(sel.take(k as int), TalentCategory::Post).push(st);
                assert(qb.drop_last() =~= selected_blocks(sel.take(k as int), TalentCategory::Post));
            }
            let stats = self.selected_talents[k].talent.stats;
            match self.selected_talents[k].category {
                TalentCategory::Pre => {
                    self.min_pre.max_with(&stats);
                },
                TalentCategory::Post => {
                    self.min_post.max_with(&stats);
                },
                TalentCategory::Any => {},
            }
            k += 1;
        }
        assert(sel.take(sel.len() as int) =~= sel);
        let min_pre = self.min_pre;
        apply_derived_post_requirements(&mut self.min_post, &min_pre);
        self.pre_stats = StatBlock::default();
        self.post_stats = StatBlock::default();
        let min_pre = self.min_pre;
        let min_post = self.min_post;
        clamp_to_minimums(&mut self.pre_stats, &min_pre);
        clamp_to_minimums(&mut self.post_stats, &min_post);
    }

    /// Adds the talent under the cursor to the chosen ones, in the given
    /// category, and selects it.
    pub fn add_selected_talent(&mut self, category: TalentCategory)
        requires
            old(self).selection_in_range(),
        ensures
            final(self).selection_in_range(),
            old(self).chosen_in_range() ==> final(self).chosen_in_range(),
            final(self).talents == old(self).talents,
            final(self).selected_index == old(self).selected_index,
            final(self).search == old(self).search,
            final(self).active_tab == old(self).active_tab,
            final(self).optimizer == old(self).optimizer,
            final(self).output == old(self).output,
            match old(self).selected_index {
                None => final(self).status@ == "Select a talent first."@
                    && final(self).selected_talents == old(self).selected_talents
                    && final(self).selected_selected_index == old(self).selected_selected_index
                    && final(self).pre_stats == old(self).pre_stats
                    && final(self).post_stats == old(self).post_stats
                    && final(self).min_pre == old(self).min_pre
                    && final(self).min_post == old(self).min_post,
                Some(i) => {
                    &&& final(self).selected_talents@.len() == old(self).selected_talents@.len() + 1
                    &&& final(self).selected_talents@.drop_last() == old(self).selected_talents@
                    &&& final(self).selected_talents@.last().talent@ == old(self).talents@[i as int]@
                    &&& final(self).selected_talents@.last().category == category
                    &&& final(self).selected_selected_index == Some(
                        old(self).selected_talents@.len() as usize,
                    )
                    &&& final(self).minimums_hold()
                    &&& final(self).status@ == "Added talent as "@ + category_label(category) + "."@
                },
            },
    {
        let index = match self.selected_index {
            Some(index) => index,
            None => {
                self.status = "Select a talent first.".to_owned();
                return;
            },
        };
        let talent = self.talents[index].clone();
        let ghost before = self.selected_talents@;
        self.selected_talents.push(SelectedTalent { talent, category });
        assert(self.selected_talents@.drop_last() =~= before);
        self.selected_selected_index = Some(self.selected_talents.len() - 1);
        self.recalculate_stat_minimums();
        let mut status = String::from_str("Added talent as ");
        status.append(category.label());
        status.append(".");
        self.status = status;
    }

    /// Removes the chosen talent under the cursor, keeping the cursor on the
    /// next one (or the last one).
    pub fn remove_selected_talent(&mut self)
        requires
            old(self).chosen_in_range(),
        ensures
            final(self).chosen_in_range(),
            old(self).selection_in_range() ==> final(self).selection_in_range(),
            final(self).talents == old(self).talents,
            final(self).selected_index == old(self).selected_index,
            final(self).search == old(self).search,
            final(self).active_tab == old(self).active_tab,
            final(self).optimizer == old(self).optimizer,
            final(self).output == old(self).output,
            match old(self).selected_selected_index {
                None => final(self).status@ == "Select a chosen talent to remove."@
                    && final(self).selected_talents == old(self).selected_talents
                    && final(self).selected_selected_index == old(self).selected_selected_index
                    && final(self).pre_stats == old(self).pre_stats
                    && final(self).post_stats == old(self).post_stats
                    && final(self).min_pre == old(self).min_pre
                    && final(self).min_post == old(self).min_post,
                Some(i) => {
                    &&& final(self).selected_talents@ == old(self).selected_talents@.remove(i as int)
                    &&& final(self).selected_selected_index == (if final(self).selected_talents@.len() == 0 {
                        None
                    } else if i < final(self).selected_talents@.len() {
                        Some(i)
                    } else {
                        Some((final(self).selected_talents@.len() - 1) as usize)
                    })
                    &&& final(self).minimums_hold()
                    &&& final(self).status@ == "Removed selected talent."@
                },
            },
    {
        let index = match self.selected_selected_index {
            Some(index) => index,
            None => {
                self.status = "Select a chosen talent to remove.".to_owned();
                return;
            },
        };
        self.selected_talents.remove(index);
        self.selected_selected_index = if self.selected_talents.len() == 0 {
            None
        } else {
            let last = self.selected_talents.len() - 1;
            Some(if index < last {
                index
            } else {
                last
            })
        };
        self.recalculate_stat_minimums();
        self.status = "Removed selected talent.".to_owned();
    }

    /// Drops every chosen talent and the optimizer output.
    pub fn clear_selected_talents(&mut self)
        ensures
            final(self).chosen_in_range(),
            old(self).selection_in_range() ==> final(self).selection_in_range(),
            final(self).selected_talents@.len() == 0,
            final(self).selected_selected_index is None,
            final(self).minimums_hold(),
            final(self).output@.len() == 0,
            final(self).status@ == "Cleared selected talents."@,
            final(self).talents == old(self).talents,
            final(self).selected_index == old(self).selected_index,
            final(self).search == old(self).search,
            final(self).active_tab == old(self).active_tab,
            final(self).optimizer == old(self).optimizer,
    {
        self.selected_talents.clear();
        self.selected_selected_index = None;
        self.recalculate_stat_minimums();
        self.output = String::new();
        self.status = "Cleared selected talents.".to_owned();
    }

    /// Hands the chosen talents and the manual stat targets to the optimizer
    /// and shows its answer, after a listing of what it was given.
    pub fn optimize(&mut self)
        requires
            selected_blocks(old(self).selected_talents@, TalentCategory::Any).len() <= u32::MAX,
        ensures
            prereq_views(final(self).optimizer.prerequisites@) == planned_prereqs(
                old(self).selected_talents@,
                old(self).pre_stats,
                old(self).post_stats,
            ),
            final(self).active_tab == ActiveTab::Output,
            match optimize_outcome(final(self).optimizer.prerequisites@) {
                Ok(c) => final(self).output@ == debug_text(
                    prereq_views(final(self).optimizer.prerequisites@),
                ) + c.1 && final(self).status@ == "Optimization complete. "@ + int_text(c.0)
                    + " points spare."@,
                Err(e) => final(self).output@ == debug_text(
                    prereq_views(final(self).optimizer.prerequisites@),
                ) + "ERROR: Build is not possible!\n"@ + e && final(self).status@
                    == "Build is not possible."@,
            },
            final(self).talents == old(self).talents,
            final(self).selected_index == old(self).selected_index,
            final(self).selected_talents == old(self).selected_talents,
            final(self).selected_selected_index == old(self).selected_selected_index,
            final(self).search == old(self).search,
            final(self).pre_stats == old(self).pre_stats,
            final(self).post_stats == old(self).post_stats,
            final(self).min_pre == old(self).min_pre,
            final(self).min_post == old(self).min_post,
    {
        let ghost sel = self.selected_talents@;
        let ghost chosen = sel.map_values(
            |s: SelectedTalent| (display_text(s.talent@), s.talent.stats, s.category),
        );
        let mut prerequisites: Vec<OwnedTalentPrereq> = Vec::new();
        let mut k: usize = 0;
        while k < self.selected_talents.len()
            invariant
                k <= self.selected_talents@.len(),
                sel == self.selected_talents@,
                chosen == sel.map_values(
                    |s: SelectedTalent| (display_text(s.talent@), s.talent.stats, s.category),
                ),
                prereq_views(prerequisites@) == chosen.take(k as int),
                blocks_of(prerequisites@, TalentCategory::Any) == selected_blocks(
                    sel.take(k as int),
                    TalentCategory::Any,
                ),
            decreases self.selected_talents@.len() - k,
        {
            let selected = &self.selected_talents[k];
            let prereq = OwnedTalentPrereq {
                name: selected.talent.display_name(),
                stats: selected.talent.stats,
                category: selected.category,
            };
            let ghost before = prerequisites@;
            prerequisites.push(prereq);
            proof {
                assert(prerequisites@.drop_last() =~= before);
                assert(sel.take(k + 1).drop_last() =~= sel.take(k as int));
                assert(sel.take(k + 1).last() == sel[k as int]);
                assert(prereq_views(prerequisites@) =~= prereq_views(before).push(
                    prereq_view(prerequisites@.last()),
                ));
                assert(chosen[k as int] == prereq_view(prerequisites@.last()));
                assert(chosen.take(k + 1) =~= chosen.take(k as int).push(chosen[k as int]));
                assert(prereq_views(prerequisites@) =~= chosen.take(k + 1));
            }
            k += 1;
        }
        assert(chosen.take(sel.len() as int) =~= chosen);
        assert(sel.take(sel.len() as int) =~= sel);
        let ghost before_manual = prerequisites@;
        if !self.pre_stats.is_all_zero() {
            let ghost before = prerequisites@;
            prerequisites.push(
                OwnedTalentPrereq {
                    name: "Manual PRE".to_owned(),
                    stats: self.pre_stats,
                    category: TalentCategory::Pre,
                },
            );
            assert(prerequisites@.drop_last() =~= before);
            assert(prereq_views(prerequisites@) =~= prereq_views(before).push(
                ("Manual PRE"@, self.pre_stats, TalentCategory::Pre),
            ));
        }
        assert(prerequisites@.len() >= before_manual.len());
        assert(prerequisites@.take(before_manual.len() as int) =~= before_manual);
        assert(forall|i: int|
            before_manual.len() <= i < prerequisites@.len() ==> prerequisites@[i].category
                == TalentCategory::Pre);
        if !self.post_stats.is_all_zero() {
            let ghost before = prerequisites@;
            prerequisites.push(
                OwnedTalentPrereq {
                    name: "Manual POST".to_owned(),
                    stats: self.post_stats,
                    category: TalentCategory::Post,
                },
            );
            assert(prerequisites@.drop_last() =~= before);
            assert(prereq_views(prerequisites@) =~= prereq_views(before).push(
                ("Manual POST"@, self.post_stats, TalentCategory::Post),
            ));
        }
        assert(prereq_views(prerequisites@) == planned_prereqs(sel, self.pre_stats, self.post_stats));
        assert(prerequisites@.len() >= before_manual.len());
        assert(prerequisites@.take(before_manual.len() as int) =~= before_manual);
        assert(forall|i: int|
            before_manual.len() <= i < prerequisites@.len() ==> prerequisites@[i].category
                != TalentCategory::Any);
        proof {
            lemma_blocks_of_push_other(before_manual, prerequisites@);
        }

        let mut debug = String::from_str("=== DEBUG: Passing to optimizer ===\n");
        debug.append("Total prerequisites: ");
        append_nat(&mut debug, prerequisites.len() as u64);
        debug.append("\n");
        let ghost pv = prereq_views(prerequisites@);
        let ghost head = debug@;
        let mut k: usize = 0;
        assert(pv.take(0) =~= Seq::<(Seq<char>, StatBlock, TalentCategory)>::empty());
        while k < prerequisites.len()
            invariant
                k <= prerequisites@.len(),
                pv == prereq_views(prerequisites@),
                debug@ == head + prereqs_text(pv.take(k as int)),
            decreases prerequisites@.len() - k,
        {
            let prereq = &prerequisites[k];
            proof {
                assert(pv.take(k + 1).drop_last() =~= pv.take(k as int));
                assert(pv.take(k + 1).last() == pv[k as int]);
                assert(pv[k as int] == prereq_view(*prereq));
            }
            debug.append("• ");
            debug.append(prereq.name.as_str());
            debug.append(" (");
            debug.append(prereq.category.label());
            debug.append(")\n");
            append_stat_block(&mut debug, &prereq.stats, "  ");
            assert(debug@ =~= head + prereqs_text(pv.take(k + 1)));
            k += 1;
        }
        assert(pv.take(pv.len() as int) =~= pv);
        debug.append("\n");
        assert(debug@ =~= debug_text(pv));

        match self.optimizer.optimize_build(prerequisites) {
            Ok(result) => {
                let mut output = debug;
                output.append(result.output.as_str());
                self.output = output;
                let mut status = String::from_str("Optimization complete. ");
                append_int(&mut status, result.points_spare);
                status.append(" points spare.");
                self.status = status;
                self.active_tab = ActiveTab::Output;
            },
            Err(error) => {
                let mut output = debug;
                output.append("ERROR: Build is not possible!\n");
                output.append(error.as_str());
                self.output = output;
                self.status = "Build is not possible.".to_owned();
                self.active_tab = ActiveTab::Output;
            },
        }
    }
}

/// Adding PRE and POST requirements does not change the ANY requirements.
pub proof fn lemma_blocks_of_push_other(a: Seq<OwnedTalentPrereq>, b: Seq<OwnedTalentPrereq>)
    requires
        a.len() <= b.len(),
        b.take(a.len() as int) == a,
        forall|i: int| a.len() <= i < b.len() ==> b[i].category != TalentCategory::Any,
    ensures
        blocks_of(b, TalentCategory::Any) == blocks_of(a, TalentCategory::Any),
    decreases b.len(),
{
    if b.len() > a.len() {
        assert(b.drop_last().take(a.len() as int) =~= b.take(a.len() as int));
        lemma_blocks_of_push_other(a, b.drop_last());
    } else {
        assert(b =~= b.take(a.len() as int));
    }
}

/// The note shown beside a stat in the stat editor: its minimum and where
/// it comes from when there is one, else that the stat is optional.
pub open spec fn minimum_note(min: u8, is_pre: bool) -> Seq<char> {
    if min > 0 {
        "min "@ + nat_text(min as nat) + " ("@ + (if is_pre {
            "from talents"@
        } else {
            "from talents/shrine"@
        }) + ")"@
    } else {
        "optional"@
    }
}

/// The note shown beside a stat in the stat editor.
pub fn stat_minimum_note(min: u8, is_pre: bool) -> (r: String)
    ensures
        r@ == minimum_note(min, is_pre),
{
    if min > 0 {
        let mut note = String::from_str("min ");
        append_nat(&mut note, min as u64);
        note.append(" (");
        if is_pre {
            note.append("from talents");
        } else {
            note.append("from talents/shrine");
        }
        note.append(")");
        note
    } else {
        String::from_str("optional")
    }
}

} // verus!
