use vstd::prelude::*;

verus! {

/// Number of base stats (Strength .. Charisma).
pub const BASE_COUNT: usize = 6;

/// Number of weapon stats (Heavy, Medium, Light).
pub const WEAPON_COUNT: usize = 3;

/// Number of attunement stats (Flamecharm .. Bloodrend).
pub const ATTUNEMENT_COUNT: usize = 7;

/// Number of stats in a block.
pub const STAT_COUNT: usize = 16;

/// Flat index of the first weapon stat.
pub const WEAPON_OFFSET: usize = 6;

/// Flat index of the first attunement stat.
pub const ATTUNEMENT_OFFSET: usize = 9;

/// The larger of two stat values.
pub open spec fn max_u8(a: u8, b: u8) -> u8 {
    if a >= b {
        a
    } else {
        b
    }
}

/// `value - 25`, or zero when that would go below zero.
pub open spec fn minus_shrine_cap(value: u8) -> u8 {
    if value >= 25 {
        (value - 25) as u8
    } else {
        0
    }
}

/// True for the flat indices of the base and weapon stats.
pub open spec fn is_trainable_slot(i: int) -> bool {
    0 <= i < 9
}

/// True for the flat indices of the attunement stats.
pub open spec fn is_attunement_slot(i: int) -> bool {
    9 <= i < 16
}

/// The all-zero stat sequence.
pub open spec fn zero_stats() -> Seq<u8> {
    Seq::new(16, |i: int| 0u8)
}

/// Elementwise maximum of two stat sequences.
pub open spec fn stats_max(a: Seq<u8>, b: Seq<u8>) -> Seq<u8> {
    Seq::new(a.len(), |i: int| max_u8(a[i], b[i]))
}

/// What a set of PRE requirements demands after the shrine: trainable stats may
/// drop by at most 25, and any used attunement must stay at least 1.
pub open spec fn derived_post(post: Seq<u8>, pre: Seq<u8>) -> Seq<u8> {
    Seq::new(
        post.len(),
        |i: int|
            if is_trainable_slot(i) {
                max_u8(post[i], minus_shrine_cap(pre[i]))
            } else if pre[i] > 0 {
                max_u8(post[i], 1)
            } else {
                post[i]
            },
    )
}

/// A PRE/POST pair is impossible when a trainable stat that POST needs would
/// have to drop by more than 25 from its PRE value.
pub open spec fn impossible_pair(pre: Seq<u8>, post: Seq<u8>) -> bool {
    exists|i: int|
        #![trigger pre[i], post[i]]
        is_trainable_slot(i) && post[i] > 0 && pre[i] > post[i] && pre[i] - post[i] > 25
}

/// Sum over all slots of how far `current` falls short of `required`.
pub open spec fn deficit_total(current: Seq<u8>, required: Seq<u8>) -> int
    decreases current.len(),
{
    if current.len() == 0 {
        0
    } else {
        let d = required[0] - current[0];
        (if d > 0 {
            d
        } else {
            0
        }) + deficit_total(current.drop_first(), required.drop_first())
    }
}

/// Sum of all entries.
pub open spec fn stat_sum(s: Seq<u8>) -> int
    decreases s.len(),
{
    if s.len() == 0 {
        0
    } else {
        s[0] + stat_sum(s.drop_first())
    }
}

/// The value candidates tried before the shrine for a stat that is zero before
/// and `post` after it.
pub open spec fn pre_candidates(post: u8) -> Seq<u8> {
    if post == 0 {
        seq![0u8]
    } else if post == 1 {
        seq![0u8, 1u8]
    } else {
        seq![0u8, 1u8, post]
    }
}

/// The slots that are zero in `pre` but required in `post`, in flat order,
/// among the first `n` slots.
pub open spec fn zero_slots_upto(pre: Seq<u8>, post: Seq<u8>, n: int) -> Seq<int>
    decreases n,
{
    if n <= 0 {
        Seq::empty()
    } else {
        let rest = zero_slots_upto(pre, post, n - 1);
        if pre[n - 1] == 0 && post[n - 1] > 0 {
            rest.push(n - 1)
        } else {
            rest
        }
    }
}

/// The slots that are zero in `pre` but required in `post`, in flat order.
pub open spec fn zero_slots(pre: Seq<u8>, post: Seq<u8>) -> Seq<int> {
    zero_slots_upto(pre, post, 16)
}

/// Every variant of `variants`, with slot `slot` set to each candidate in turn.
pub open spec fn expand_slot(variants: Seq<Seq<u8>>, slot: int, cands: Seq<u8>) -> Seq<Seq<u8>>
    decreases variants.len(),
{
    if variants.len() == 0 {
        Seq::empty()
    } else {
        expand_slot(variants.drop_last(), slot, cands) + cands.map_values(
            |c: u8| variants.last().update(slot, c),
        )
    }
}

/// The variants after the first `k` zero slots have been expanded.
pub open spec fn variants_after(pre: Seq<u8>, post: Seq<u8>, k: int) -> Seq<Seq<u8>>
    decreases k,
{
    if k <= 0 {
        seq![pre]
    } else {
        let slot = zero_slots(pre, post)[k - 1];
        expand_slot(variants_after(pre, post, k - 1), slot, pre_candidates(post[slot]))
    }
}

/// All PRE variants in which each zero-but-required stat takes each of its
/// candidates, the later slots varying fastest.
pub open spec fn zero_variants(pre: Seq<u8>, post: Seq<u8>) -> Seq<Seq<u8>> {
    variants_after(pre, post, zero_slots(pre, post).len() as int)
}

/// A full set of character stats, grouped by section.
#[derive(Clone, Copy, Debug, PartialEq, Eq)]
pub struct StatBlock {
    pub base: [u8; 6],
    pub weapon: [u8; 3],
    pub attunement: [u8; 7],
}

impl View for StatBlock {
    type V = Seq<u8>;

    /// All sixteen stats in order: base, weapon, attunement.
    open spec fn view(&self) -> Seq<u8> {
        self.base@ + self.weapon@ + self.attunement@
    }
}

/// The view of every stat block has sixteen entries, and names its sections.
pub proof fn lemma_view_layout(s: StatBlock)
    ensures
        s@.len() == 16,
        forall|i: int| 0 <= i < 6 ==> #[trigger] s@[i] == s.base@[i],
        forall|i: int| 0 <= i < 3 ==> #[trigger] s@[i + 6] == s.weapon@[i],
        forall|i: int| 0 <= i < 7 ==> #[trigger] s@[i + 9] == s.attunement@[i],
{
}

impl Default for StatBlock {
    /// The all-zero stat block.
    fn default() -> (r: Self)
        ensures
            r@ == zero_stats(),
    {
        let r = StatBlock { base: [0u8; 6], weapon: [0u8; 3], attunement: [0u8; 7] };
        assert(r@ =~= zero_stats());
        r
    }
}

impl StatBlock {
    /// Raises every stat to at least the matching stat of `other`.
    pub fn max_with(&mut self, other: &Self)
        ensures
            final(self)@ == stats_max(old(self)@, other@),
    {
        max_assign(&mut self.base, &other.base);
        max_assign(&mut self.weapon, &other.weapon);
        max_assign(&mut self.attunement, &other.attunement);
        assert(self@ =~= stats_max(old(self)@, other@));
    }

    /// True when no stat is set.
    pub fn is_all_zero(&self) -> (r: bool)
        ensures
            r == (self@ == zero_stats()),
    {
        let r = all_zero(&self.base) && all_zero(&self.weapon) && all_zero(&self.attunement);
        if r {
            assert(self@ =~= zero_stats());
        } else {
            proof {
                if self@ == zero_stats() {
                    assert(self.base@ =~= self@.subrange(0, 6));
                    assert(self.weapon@ =~= self@.subrange(6, 9));
                    assert(self.attunement@ =~= self@.subrange(9, 16));
                }
            }
        }
        r
    }

    /// True when both blocks hold the same stats.
    pub fn same_stats(&self, other: &Self) -> (r: bool)
        ensures
            r == (self@ == other@),
    {
        let r = same_values(&self.base, &other.base) && same_values(&self.weapon, &other.weapon)
            && same_values(&self.attunement, &other.attunement);
        if r {
            assert(self@ =~= other@);
        } else {
            proof {
                if self@ == other@ {
                    assert(self.base@ =~= self@.subrange(0, 6));
                    assert(self.weapon@ =~= self@.subrange(6, 9));
                    assert(self.attunement@ =~= self@.subrange(9, 16));
                    assert(other.base@ =~= other@.subrange(0, 6));
                    assert(other.weapon@ =~= other@.subrange(6, 9));
                    assert(other.attunement@ =~= other@.subrange(9, 16));
                }
            }
        }
        r
    }
}

/// True when every entry of the array is zero.
pub fn all_zero<const N: usize>(values: &[u8; N]) -> (r: bool)
    ensures
        r == (forall|i: int| 0 <= i < N ==> values@[i] == 0),
{
    let mut i: usize = 0;
    while i < N
        invariant
            i <= N,
            forall|j: int| 0 <= j < i ==> values@[j] == 0,
        decreases N - i,
    {
        if values[i] != 0 {
            return false;
        }
        i += 1;
    }
    true
}

/// True when both arrays hold the same entries.
pub fn same_values<const N: usize>(a: &[u8; N], b: &[u8; N]) -> (r: bool)
    ensures
        r == (a@ == b@),
{
    let mut i: usize = 0;
    while i < N
        invariant
            i <= N,
            forall|j: int| 0 <= j < i ==> a@[j] == b@[j],
        decreases N - i,
    {
        if a[i] != b[i] {
            return false;
        }
        i += 1;
    }
    assert(a@ =~= b@);
    true
}

/// Elementwise maximum of two arrays, written into `target`.
pub fn max_assign<const N: usize>(target: &mut [u8; N], source: &[u8; N])
    ensures
        final(target)@ == stats_max(old(target)@, source@),
{
    let mut i: usize = 0;
    while i < N
        invariant
            i <= N,
            forall|j: int| 0 <= j < i ==> target@[j] == max_u8(old(target)@[j], source@[j]),
            forall|j: int| i <= j < N ==> target@[j] == old(target)@[j],
        decreases N - i,
    {
        let left = target[i];
        let right = source[i];
        target[i] = if left >= right {
            left
        } else {
            right
        };
        i += 1;
    }
    assert(target@ =~= stats_max(old(target)@, source@));
}

/// Adds to `post` what the PRE stats imply after the shrine: each base and
/// weapon stat at least its PRE value minus 25, each used attunement at least 1.
pub fn apply_derived_post_requirements(post: &mut StatBlock, pre: &StatBlock)
    ensures
        final(post)@ == derived_post(old(post)@, pre@),
{
    let mut i: usize = 0;
    while i < 6
        invariant
            i <= 6,
            forall|j: int|
                0 <= j < i ==> post.base@[j] == max_u8(
                    old(post).base@[j],
                    minus_shrine_cap(pre.base@[j]),
                ),
            forall|j: int| i <= j < 6 ==> post.base@[j] == old(post).base@[j],
            post.weapon == old(post).weapon,
            post.attunement == old(post).attunement,
        decreases 6 - i,
    {
        let source = pre.base[i].saturating_sub(25);
        let target = post.base[i];
        post.base[i] = if target >= source {
            target
        } else {
            source
        };
        i += 1;
    }
    let mut i: usize = 0;
    while i < 3
        invariant
            i <= 3,
            forall|j: int|
                0 <= j < 6 ==> post.base@[j] == max_u8(
                    old(post).base@[j],
                    minus_shrine_cap(pre.base@[j]),
                ),
            forall|j: int|
                0 <= j < i ==> post.weapon@[j] == max_u8(
                    old(post).weapon@[j],
                    minus_shrine_cap(pre.weapon@[j]),
                ),
            forall|j: int| i <= j < 3 ==> post.weapon@[j] == old(post).weapon@[j],
            post.attunement == old(post).attunement,
        decreases 3 - i,
    {
        let source = pre.weapon[i].saturating_sub(25);
        let target = post.weapon[i];
        post.weapon[i] = if target >= source {
            target
        } else {
            source
        };
        i += 1;
    }
    let mut i: usize = 0;
    while i < 7
        invariant
            i <= 7,
            forall|j: int|
                0 <= j < 6 ==> post.base@[j] == max_u8(
                    old(post).base@[j],
                    minus_shrine_cap(pre.base@[j]),
                ),
            forall|j: int|
                0 <= j < 3 ==> post.weapon@[j] == max_u8(
                    old(post).weapon@[j],
                    minus_shrine_cap(pre.weapon@[j]),
                ),
            forall|j: int|
                0 <= j < i ==> post.attunement@[j] == (if pre.attunement@[j] > 0 {
                    max_u8(old(post).attunement@[j], 1)
                } else {
                    old(post).attunement@[j]
                }),
            forall|j: int| i <= j < 7 ==> post.attunement@[j] == old(post).attunement@[j],
        decreases 7 - i,
    {
        if pre.attunement[i] > 0 {
            let target = post.attunement[i];
            post.attunement[i] = if target >= 1 {
                target
            } else {
                1
            };
        }
        i += 1;
    }
    assert(post@ =~= derived_post(old(post)@, pre@));
}

/// Raises every stat of `current` to at least its minimum.
pub fn clamp_to_minimums(current: &mut StatBlock, mins: &StatBlock)
    ensures
        final(current)@ == stats_max(old(current)@, mins@),
{
    max_assign(&mut current.base, &mins.base);
    max_assign(&mut current.weapon, &mins.weapon);
    max_assign(&mut current.attunement, &mins.attunement);
    assert(current@ =~= stats_max(old(current)@, mins@));
}

/// True when some base or weapon stat required after the shrine sits more than
/// 25 below its PRE value, which the shrine cannot bridge.
pub fn impossible_combination(pre: &StatBlock, post: &StatBlock) -> (r: bool)
    ensures
        r == impossible_pair(pre@, post@),
{
    proof {
        lemma_view_layout(*pre);
        lemma_view_layout(*post);
    }
    let mut i: usize = 0;
    while i < 6
        invariant
            i <= 6,
            pre@.len() == 16,
            post@.len() == 16,
            forall|j: int| 0 <= j < 6 ==> #[trigger] pre@[j] == pre.base@[j],
            forall|j: int| 0 <= j < 6 ==> #[trigger] post@[j] == post.base@[j],
            forall|j: int|
                #![trigger pre@[j], post@[j]]
                0 <= j < i ==> !(post@[j] > 0 && pre@[j] > post@[j] && pre@[j] - post@[j] > 25),
        decreases 6 - i,
    {
        let pre_value = pre.base[i];
        let post_value = post.base[i];
        if post_value > 0 && pre_value > post_value && (pre_value - post_value) > 25 {
            assert(pre@[i as int] == pre_value && post@[i as int] == post_value);
            return true;
        }
        i += 1;
    }
    let mut i: usize = 0;
    while i < 3
        invariant
            i <= 3,
            pre@.len() == 16,
            post@.len() == 16,
            forall|j: int| 0 <= j < 3 ==> #[trigger] pre@[j + 6] == pre.weapon@[j],
            forall|j: int| 0 <= j < 3 ==> #[trigger] post@[j + 6] == post.weapon@[j],
            forall|j: int|
                #![trigger pre@[j], post@[j]]
                0 <= j < 6 + i ==> !(post@[j] > 0 && pre@[j] > post@[j] && pre@[j] - post@[j]
                    > 25),
        decreases 3 - i,
    {
        let pre_value = pre.weapon[i];
        let post_value = post.weapon[i];
        if post_value > 0 && pre_value > post_value && (pre_value - post_value) > 25 {
            assert(pre@[i + 6] == pre_value && post@[i + 6] == post_value);
            return true;
        }
        i += 1;
    }
    false
}

/// The stats after the shrine once every POST requirement has been trained up.
pub fn apply_post_requirements(shrine: &StatBlock, post: &StatBlock) -> (r: StatBlock)
    ensures
        r@ == stats_max(shrine@, post@),
{
    let mut final_stats = *shrine;
    max_assign(&mut final_stats.base, &post.base);
    max_assign(&mut final_stats.weapon, &post.weapon);
    max_assign(&mut final_stats.attunement, &post.attunement);
    assert(final_stats@ =~= stats_max(shrine@, post@));
    final_stats
}

/// `deficit_total` splits over concatenation.
pub proof fn lemma_deficit_total_add(a: Seq<u8>, b: Seq<u8>, c: Seq<u8>, d: Seq<u8>)
    requires
        a.len() == c.len(),
        b.len() == d.len(),
    ensures
        deficit_total(a + b, c + d) == deficit_total(a, c) + deficit_total(b, d),
    decreases a.len(),
{
    if a.len() == 0 {
        assert(a + b =~= b);
        assert(c + d =~= d);
    } else {
        lemma_deficit_total_add(a.drop_first(), b, c.drop_first(), d);
        assert((a + b).drop_first() =~= a.drop_first() + b);
        assert((c + d).drop_first() =~= c.drop_first() + d);
    }
}

/// `deficit_total` of a prefix grows by the shortfall of the next entry.
pub proof fn lemma_deficit_total_push(a: Seq<u8>, c: Seq<u8>, i: int)
    requires
        a.len() == c.len(),
        0 <= i < a.len(),
    ensures
        deficit_total(a.subrange(0, i + 1), c.subrange(0, i + 1)) == deficit_total(
            a.subrange(0, i),
            c.subrange(0, i),
        ) + (if c[i] - a[i] > 0 {
            c[i] - a[i]
        } else {
            0
        }),
        0 <= deficit_total(a.subrange(0, i), c.subrange(0, i)) <= 255 * i,
    decreases i,
{
    let a1 = a.subrange(0, i);
    let c1 = c.subrange(0, i);
    lemma_deficit_total_add(a1, seq![a[i]], c1, seq![c[i]]);
    assert(a.subrange(0, i + 1) =~= a1 + seq![a[i]]);
    assert(c.subrange(0, i + 1) =~= c1 + seq![c[i]]);
    assert(seq![a[i]].drop_first() =~= Seq::<u8>::empty());
    assert(seq![c[i]].drop_first() =~= Seq::<u8>::empty());
    assert(deficit_total(Seq::<u8>::empty(), Seq::<u8>::empty()) == 0);
    if i > 0 {
        lemma_deficit_total_push(a, c, i - 1);
    }
}

/// How many points it takes to raise every stat of `current` to `required`.
pub fn deficit_sum<const N: usize>(current: &[u8; N], required: &[u8; N]) -> (r: i32)
    requires
        N <= 8_000_000,
    ensures
        r == deficit_total(current@, required@),
        0 <= r <= 255 * N,
{
    let mut total: i32 = 0;
    let mut i: usize = 0;
    proof {
        assert(current@.subrange(0, 0) =~= Seq::<u8>::empty());
        assert(required@.subrange(0, 0) =~= Seq::<u8>::empty());
    }
    while i < N
        invariant
            i <= N,
            total == deficit_total(current@.subrange(0, i as int), required@.subrange(0, i as int)),
            0 <= total <= 255 * i,
            N <= 8_000_000,
        decreases N - i,
    {
        proof {
            lemma_deficit_total_push(current@, required@, i as int);
        }
        let d = required[i] as i32 - current[i] as i32;
        if d > 0 {
            total = total + d;
        }
        i += 1;
    }
    assert(current@.subrange(0, N as int) =~= current@);
    assert(required@.subrange(0, N as int) =~= required@);
    total
}

/// Points needed to raise the stats after the shrine to the POST requirements.
pub fn points_needed_for_post(shrine: &StatBlock, post: &StatBlock) -> (r: i32)
    ensures
        r == deficit_total(shrine@, post@),
        0 <= r <= 255 * 16,
{
    let a = deficit_sum(&shrine.base, &post.base);
    let b = deficit_sum(&shrine.weapon, &post.weapon);
    let c = deficit_sum(&shrine.attunement, &post.attunement);
    proof {
        lemma_deficit_total_add(shrine.base@, shrine.weapon@, post.base@, post.weapon@);
        lemma_deficit_total_add(
            shrine.base@ + shrine.weapon@,
            shrine.attunement@,
            post.base@ + post.weapon@,
            post.attunement@,
        );
    }
    a + b + c
}

/// The section of a stat block.
#[derive(Clone, Copy, Debug, PartialEq, Eq)]
pub enum StatSection {
    Base,
    Weapon,
    Attunement,
}

/// Flat index of the first stat of a section.
pub open spec fn section_offset(section: StatSection) -> int {
    match section {
        StatSection::Base => 0,
        StatSection::Weapon => 6,
        StatSection::Attunement => 9,
    }
}

/// Number of stats in a section.
pub open spec fn section_len(section: StatSection) -> int {
    match section {
        StatSection::Base => 6,
        StatSection::Weapon => 3,
        StatSection::Attunement => 7,
    }
}

/// Reads one stat.
pub fn read_stat(stats: &StatBlock, section: StatSection, index: usize) -> (r: u8)
    requires
        index < section_len(section),
    ensures
        r == stats@[section_offset(section) + index],
{
    match section {
        StatSection::Base => stats.base[index],
        StatSection::Weapon => stats.weapon[index],
        StatSection::Attunement => stats.attunement[index],
    }
}

/// Writes one stat.
pub fn write_stat(stats: &mut StatBlock, section: StatSection, index: usize, value: u8)
    requires
        index < section_len(section),
    ensures
        final(stats)@ == old(stats)@.update(section_offset(section) + index, value),
{
    match section {
        StatSection::Base => stats.base[index] = value,
        StatSection::Weapon => stats.weapon[index] = value,
        StatSection::Attunement => stats.attunement[index] = value,
    }
    assert(stats@ =~= old(stats)@.update(section_offset(section) + index, value));
}

/// A stat that is zero before the shrine but required after it.
#[derive(Clone, Copy, Debug, PartialEq, Eq)]
pub enum ZeroSlot {
    Base(usize),
    Weapon(usize),
    Attunement(usize),
}

/// Flat index of a slot.
pub open spec fn slot_index(slot: ZeroSlot) -> int {
    match slot {
        ZeroSlot::Base(i) => i as int,
        ZeroSlot::Weapon(i) => 6 + i,
        ZeroSlot::Attunement(i) => 9 + i,
    }
}

/// True when the slot's index lies within its section.
pub open spec fn slot_in_range(slot: ZeroSlot) -> bool {
    match slot {
        ZeroSlot::Base(i) => i < 6,
        ZeroSlot::Weapon(i) => i < 3,
        ZeroSlot::Attunement(i) => i < 7,
    }
}

/// Reads the stat at a slot.
pub fn read_zero_slot(stats: &StatBlock, slot: ZeroSlot) -> (r: u8)
    requires
        slot_in_range(slot),
    ensures
        r == stats@[slot_index(slot)],
{
    match slot {
        ZeroSlot::Base(index) => stats.base[index],
        ZeroSlot::Weapon(index) => stats.weapon[index],
        ZeroSlot::Attunement(index) => stats.attunement[index],
    }
}

/// Writes the stat at a slot.
pub fn write_zero_slot(stats: &mut StatBlock, slot: ZeroSlot, value: u8)
    requires
        slot_in_range(slot),
    ensures
        final(stats)@ == old(stats)@.update(slot_index(slot), value),
{
    match slot {
        ZeroSlot::Base(index) => stats.base[index] = value,
        ZeroSlot::Weapon(index) => stats.weapon[index] = value,
        ZeroSlot::Attunement(index) => stats.attunement[index] = value,
    }
    assert(stats@ =~= old(stats)@.update(slot_index(slot), value));
}

/// The PRE values worth trying for a stat that is zero before the shrine and
/// `post_value` after it: zero, one, and the POST value itself, without repeats.
pub fn candidate_pre_values(post_value: u8) -> (r: Vec<u8>)
    ensures
        r@ == pre_candidates(post_value),
{
    let mut candidates: Vec<u8> = vec![0u8];
    if post_value > 0 {
        candidates.push(1);
    }
    if post_value > 1 {
        candidates.push(post_value);
    }
    assert(candidates@ =~= pre_candidates(post_value));
    candidates
}

/// The views of a sequence of stat blocks.
pub open spec fn block_views(s: Seq<StatBlock>) -> Seq<Seq<u8>> {
    s.map_values(|b: StatBlock| b@)
}

/// The flat indices of a sequence of slots.
pub open spec fn slot_indices(s: Seq<ZeroSlot>) -> Seq<int> {
    s.map_values(|z: ZeroSlot| slot_index(z))
}

/// The zero slots below `n` are increasing, below `n`, and zero-but-required.
pub proof fn lemma_zero_slots_upto(pre: Seq<u8>, post: Seq<u8>, n: int)
    ensures
        forall|a: int, b: int|
            0 <= a < b < zero_slots_upto(pre, post, n).len() ==> zero_slots_upto(pre, post, n)[a]
                < zero_slots_upto(pre, post, n)[b],
        forall|a: int|
            0 <= a < zero_slots_upto(pre, post, n).len() ==> 0 <= #[trigger] zero_slots_upto(
                pre,
                post,
                n,
            )[a] < n && pre[zero_slots_upto(pre, post, n)[a]] == 0 && post[zero_slots_upto(
                pre,
                post,
                n,
            )[a]] > 0,
    decreases n,
{
    if n > 0 {
        lemma_zero_slots_upto(pre, post, n - 1);
        let rest = zero_slots_upto(pre, post, n - 1);
        let all = zero_slots_upto(pre, post, n);
        if pre[n - 1] == 0 && post[n - 1] > 0 {
            assert(all == rest.push(n - 1));
            assert forall|a: int| 0 <= a < all.len() implies 0 <= #[trigger] all[a] < n && pre[all[a]]
                == 0 && post[all[a]] > 0 by {
                if a < rest.len() {
                    assert(all[a] == rest[a]);
                }
            }
        } else {
            assert(all == rest);
        }
    }
}

/// Expanding one more variant appends its candidates.
pub proof fn lemma_expand_slot_take(variants: Seq<Seq<u8>>, slot: int, cands: Seq<u8>, j: int)
    requires
        0 <= j < variants.len(),
    ensures
        expand_slot(variants.take(j + 1), slot, cands) == expand_slot(variants.take(j), slot, cands)
            + cands.map_values(|c: u8| variants[j].update(slot, c)),
{
    assert(variants.take(j + 1).drop_last() =~= variants.take(j));
    assert(variants.take(j + 1).last() == variants[j]);
}

/// Every PRE variant obtained by setting each stat that is zero before the
/// shrine, but required after it, to zero, one or its required value.
pub fn zero_to_positive_variants(pre: &StatBlock, post: &StatBlock) -> (r: Vec<StatBlock>)
    ensures
        block_views(r@) == zero_variants(pre@, post@),
        forall|a: int, b: int| 0 <= a < b < r@.len() ==> r@[a]@ != r@[b]@,
{
    proof {
        lemma_view_layout(*pre);
        lemma_view_layout(*post);
    }
    let ghost zs = zero_slots(pre@, post@);
    let mut slots: Vec<ZeroSlot> = Vec::new();
    let mut i: usize = 0;
    while i < 6
        invariant
            i <= 6,
            pre@.len() == 16,
            post@.len() == 16,
            forall|j: int| 0 <= j < 6 ==> #[trigger] pre@[j] == pre.base@[j],
            forall|j: int| 0 <= j < 6 ==> #[trigger] post@[j] == post.base@[j],
            slot_indices(slots@) == zero_slots_upto(pre@, post@, i as int),
            forall|j: int| 0 <= j < slots@.len() ==> slot_in_range(#[trigger] slots@[j]),
        decreases 6 - i,
    {
        if pre.base[i] == 0 && post.base[i] > 0 {
            slots.push(ZeroSlot::Base(i));
        }
        assert(slot_indices(slots@) =~= zero_slots_upto(pre@, post@, i + 1));
        i += 1;
    }
    let mut i: usize = 0;
    while i < 3
        invariant
            i <= 3,
            pre@.len() == 16,
            post@.len() == 16,
            forall|j: int| 0 <= j < 3 ==> #[trigger] pre@[j + 6] == pre.weapon@[j],
            forall|j: int| 0 <= j < 3 ==> #[trigger] post@[j + 6] == post.weapon@[j],
            slot_indices(slots@) == zero_slots_upto(pre@, post@, 6 + i),
            forall|j: int| 0 <= j < slots@.len() ==> slot_in_range(#[trigger] slots@[j]),
        decreases 3 - i,
    {
        if pre.weapon[i] == 0 && post.weapon[i] > 0 {
            slots.push(ZeroSlot::Weapon(i));
        }
        assert(slot_indices(slots@) =~= zero_slots_upto(pre@, post@, 6 + i + 1));
        i += 1;
    }
    let mut i: usize = 0;
    while i < 7
        invariant
            i <= 7,
            pre@.len() == 16,
            post@.len() == 16,
            forall|j: int| 0 <= j < 7 ==> #[trigger] pre@[j + 9] == pre.attunement@[j],
            forall|j: int| 0 <= j < 7 ==> #[trigger] post@[j + 9] == post.attunement@[j],
            slot_indices(slots@) == zero_slots_upto(pre@, post@, 9 + i),
            forall|j: int| 0 <= j < slots@.len() ==> slot_in_range(#[trigger] slots@[j]),
        decreases 7 - i,
    {
        if pre.attunement[i] == 0 && post.attunement[i] > 0 {
            slots.push(ZeroSlot::Attunement(i));
        }
        assert(slot_indices(slots@) =~= zero_slots_upto(pre@, post@, 9 + i + 1));
        i += 1;
    }
    proof {
        lemma_zero_slots_upto(pre@, post@, 16);
    }
    let mut variants: Vec<StatBlock> = vec![*pre];
    assert(block_views(variants@) =~= variants_after(pre@, post@, 0));
    let mut k: usize = 0;
    while k < slots.len()
        invariant
            k <= slots@.len(),
            slot_indices(slots@) == zs,
            zs == zero_slots(pre@, post@),
            forall|j: int| 0 <= j < slots@.len() ==> slot_in_range(#[trigger] slots@[j]),
            forall|a: int, b: int| 0 <= a < b < zs.len() ==> zs[a] < zs[b],
            forall|a: int|
                0 <= a < zs.len() ==> 0 <= #[trigger] zs[a] < 16 && pre@[zs[a]] == 0,
            pre@.len() == 16,
            post@.len() == 16,
            block_views(variants@) == variants_after(pre@, post@, k as int),
            forall|a: int, b: int|
                0 <= a < b < variants@.len() ==> variants@[a]@ != variants@[b]@,
            forall|a: int, t: int|
                #![trigger variants@[a], zs[t]]
                0 <= a < variants@.len() && k <= t < zs.len() ==> variants@[a]@[zs[t]] == 0,
        decreases slots@.len() - k,
    {
        let slot = slots[k];
        let post_value = read_zero_slot(post, slot);
        let candidates = candidate_pre_values(post_value);
        let ghost vs = block_views(variants@);
        let ghost s = slot_index(slot);
        assert(zs[k as int] == s);
        let ghost cs = candidates@;
        assert(forall|a: int, b: int| 0 <= a < b < cs.len() ==> cs[a] != cs[b]);
        let ghost mut orig: Seq<int> = Seq::empty();
        let ghost mut ci: Seq<int> = Seq::empty();
        let mut next_variants: Vec<StatBlock> = Vec::new();
        let mut j: usize = 0;
        assert(block_views(next_variants@) =~= expand_slot(vs.take(0), s, cs));
        while j < variants.len()
            invariant
                j <= variants@.len(),
                vs == block_views(variants@),
                slot_in_range(slot),
                s == slot_index(slot),
                s == zs[k as int],
                k < zs.len(),
                cs == candidates@,
                forall|a: int, b: int| 0 <= a < b < cs.len() ==> cs[a] != cs[b],
                forall|a: int, b: int|
                    0 <= a < b < variants@.len() ==> variants@[a]@ != variants@[b]@,
                forall|a: int| 0 <= a < variants@.len() ==> (#[trigger] variants@[a])@.len() == 16,
                forall|a: int| 0 <= a < variants@.len() ==> (#[trigger] variants@[a])@[s] == 0,
                block_views(next_variants@) == expand_slot(vs.take(j as int), s, cs),
                orig.len() == next_variants@.len(),
                ci.len() == next_variants@.len(),
                forall|q: int|
                    0 <= q < next_variants@.len() ==> 0 <= #[trigger] orig[q] < j && 0 <= ci[q]
                        < cs.len() && next_variants@[q]@ == vs[orig[q]].update(s, cs[ci[q]]),
                forall|a: int, b: int|
                    0 <= a < b < next_variants@.len() ==> next_variants@[a]@
                        != next_variants@[b]@,
            decreases variants@.len() - j,
        {
            let variant = variants[j];
            let mut m: usize = 0;
            let ghost before = block_views(next_variants@);
            while m < candidates.len()
                invariant
                    m <= candidates@.len(),
                    j < variants@.len(),
                    variant == variants@[j as int],
                    vs == block_views(variants@),
                    slot_in_range(slot),
                    s == slot_index(slot),
                    cs == candidates@,
                    forall|a: int, b: int| 0 <= a < b < cs.len() ==> cs[a] != cs[b],
                    forall|a: int, b: int|
                        0 <= a < b < variants@.len() ==> variants@[a]@ != variants@[b]@,
                    forall|a: int|
                        0 <= a < variants@.len() ==> (#[trigger] variants@[a])@.len() == 16,
                    forall|a: int| 0 <= a < variants@.len() ==> (#[trigger] variants@[a])@[s] == 0,
                    block_views(next_variants@) == before + cs.take(m as int).map_values(
                        |c: u8| variant@.update(s, c),
                    ),
                    orig.len() == next_variants@.len(),
                    ci.len() == next_variants@.len(),
                    forall|q: int|
                        0 <= q < next_variants@.len() ==> 0 <= #[trigger] orig[q] <= j && 0
                            <= ci[q] < cs.len() && next_variants@[q]@ == vs[orig[q]].update(
                            s,
                            cs[ci[q]],
                        ) && (orig[q] == j ==> ci[q] < m),
                    forall|a: int, b: int|
                        0 <= a < b < next_variants@.len() ==> next_variants@[a]@
                            != next_variants@[b]@,
                decreases candidates@.len() - m,
            {
                let mut next = variant;
                write_zero_slot(&mut next, slot, candidates[m]);
                assert(vs[j as int] == variant@);
                assert(next@ == vs[j as int].update(s, cs[m as int]));
                proof {
                    assert forall|q: int| 0 <= q < next_variants@.len() implies next_variants@[q]@
                        != next@ by {
                        let o = orig[q];
                        let c = ci[q];
                        if next_variants@[q]@ == next@ {
                            assert(next_variants@[q]@[s] == cs[c]);
                            assert(next@[s] == cs[m as int]);
                            assert(c == m);
                            assert(o != j);
                            assert(vs[o] =~= vs[j as int]) by {
                                assert forall|t: int| 0 <= t < 16 implies vs[o][t] == vs[j as int][t] by {
                                    if t != s {
                                        assert(next_variants@[q]@[t] == vs[o][t]);
                                        assert(next@[t] == vs[j as int][t]);
                                    }
                                }
                            }
                            if o < j {
                                assert(variants@[o]@ != variants@[j as int]@);
                            } else {
                                assert(variants@[j as int]@ != variants@[o]@);
                            }
                        }
                    }
                }
                let mut present = false;
                let mut p: usize = 0;
                while p < next_variants.len()
                    invariant
                        p <= next_variants@.len(),
                        !present,
                        forall|q: int| 0 <= q < next_variants@.len() ==> next_variants@[q]@ != next@,
                    decreases next_variants@.len() - p,
                {
                    if next_variants[p].same_stats(&next) {
                        present = true;
                    }
                    p += 1;
                }
                let ghost old_nv = next_variants@;
                if !present {
                    next_variants.push(next);
                    proof {
                        orig = orig.push(j as int);
                        ci = ci.push(m as int);
                    }
                }
                proof {
                    let f = |c: u8| variant@.update(s, c);
                    assert(next_variants@ == old_nv.push(next));
                    assert(block_views(next_variants@) =~= block_views(old_nv).push(next@));
                    assert(cs.take(m + 1).map_values(f) =~= cs.take(m as int).map_values(f).push(
                        f(cs[m as int]),
                    ));
                    assert(block_views(next_variants@) =~= before + cs.take(m + 1).map_values(f));
                }
                m += 1;
            }
            proof {
                lemma_expand_slot_take(vs, s, cs, j as int);
                assert(cs.take(cs.len() as int) =~= cs);
            }
            j += 1;
        }
        assert(vs.take(vs.len() as int) =~= vs);
        proof {
            assert forall|a: int, t: int|
                #![trigger next_variants@[a], zs[t]]
                0 <= a < next_variants@.len() && k + 1 <= t < zs.len() implies next_variants@[
                a]@[zs[t]] == 0 by {
                assert(zs[t] != s);
                assert(variants@[orig[a]]@[zs[t]] == 0);
            }
        }
        variants = next_variants;
        k += 1;
    }
    variants
}

} // verus!
