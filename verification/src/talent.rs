use vstd::prelude::*;
use vstd::string::StrSliceExecFns;
use vstd::string::StringExecFns;

use crate::stats::{max_u8, read_stat, section_len, section_offset, write_stat, StatBlock, StatSection};
use crate::text::{
    append_nat, char_uppercase, joined, lemma_text_less_irreflexive, lemma_text_less_total,
    lemma_text_less_transitive, lowercase, nat_text, string_views, text_eq, text_less,
    text_less_than, to_lowercase, uppercase_char,
};

verus! {

/// Names of the base stats.
pub const BASE_STATS: [&'static str; 6] = [
    "Strength",
    "Fortitude",
    "Agility",
    "Intelligence",
    "Willpower",
    "Charisma",
];

/// Names of the weapon stats.
pub const WEAPON_STATS: [&'static str; 3] = ["Heavy Wep.", "Medium Wep.", "Light Wep."];

/// Names of the attunement stats.
pub const ATTUNEMENT_STATS: [&'static str; 7] = [
    "Flamecharm",
    "Frostdraw",
    "Thundercall",
    "Galebreathe",
    "Shadowcast",
    "Ironsing",
    "Bloodrend",
];

/// The views of a sequence of string slices.
pub open spec fn str_views(s: Seq<&str>) -> Seq<Seq<char>> {
    s.map_values(|t: &str| t@)
}

/// When a talent has to be satisfied relative to the Shrine of Order.
#[derive(Clone, Copy, Debug, PartialEq, Eq, Structural)]
pub enum TalentCategory {
    Pre,
    Post,
    Any,
}

/// The label shown for a category.
pub open spec fn category_label(c: TalentCategory) -> Seq<char> {
    match c {
        TalentCategory::Pre => "PRE"@,
        TalentCategory::Post => "POST"@,
        TalentCategory::Any => "ANY"@,
    }
}

impl TalentCategory {
    /// The label shown for this category.
    pub fn label(self) -> (r: &'static str)
        ensures
            r@ == category_label(self),
    {
        match self {
            TalentCategory::Pre => "PRE",
            TalentCategory::Post => "POST",
            TalentCategory::Any => "ANY",
        }
    }
}

/// `name: value`, the line shown for one required stat.
pub open spec fn stat_line(name: Seq<char>, value: u8) -> Seq<char> {
    name + ": "@ + nat_text(value as nat)
}

/// The line of every stat with a nonzero value, in order.
pub open spec fn stat_lines(names: Seq<Seq<char>>, values: Seq<u8>) -> Seq<Seq<char>>
    decreases values.len(),
{
    if values.len() == 0 {
        Seq::empty()
    } else {
        let rest = stat_lines(names.drop_last(), values.drop_last());
        if values.last() > 0 {
            rest.push(stat_line(names.last(), values.last()))
        } else {
            rest
        }
    }
}

/// The search tokens of every stat with a nonzero value: its lowercase name,
/// then its lowercase name followed by a space and the value.
pub open spec fn stat_tokens(names: Seq<Seq<char>>, values: Seq<u8>) -> Seq<Seq<char>>
    decreases values.len(),
{
    if values.len() == 0 {
        Seq::empty()
    } else {
        let rest = stat_tokens(names.drop_last(), values.drop_last());
        if values.last() > 0 {
            rest.push(lowercase(names.last())).push(
                lowercase(names.last()) + " "@ + nat_text(values.last() as nat),
            )
        } else {
            rest
        }
    }
}

/// Appends `name: value` for every stat with a nonzero value.
pub fn collect_stat_lines<const N: usize>(
    lines: &mut Vec<String>,
    names: &[&'static str; N],
    values: &[u8; N],
)
    ensures
        string_views(final(lines)@) == string_views(old(lines)@) + stat_lines(
            str_views(names@),
            values@,
        ),
{
    let ghost nv = str_views(names@);
    let mut i: usize = 0;
    assert(values@.take(0) =~= Seq::<u8>::empty());
    assert(string_views(lines@) =~= string_views(old(lines)@) + stat_lines(
        nv.take(0),
        values@.take(0),
    ));
    while i < N
        invariant
            i <= N,
            nv == str_views(names@),
            string_views(lines@) == string_views(old(lines)@) + stat_lines(
                nv.take(i as int),
                values@.take(i as int),
            ),
        decreases N - i,
    {
        let name = names[i];
        let value = values[i];
        proof {
            assert(nv.take(i + 1).drop_last() =~= nv.take(i as int));
            assert(values@.take(i + 1).drop_last() =~= values@.take(i as int));
            assert(nv[i as int] == name@);
        }
        let ghost before = lines@;
        if value > 0 {
            let mut line = String::from_str(name);
            proof {
                reveal_strlit(": ");
            }
            line.append(": ");
            append_nat(&mut line, value as u64);
            lines.push(line);
            assert(string_views(lines@) =~= string_views(before).push(
                stat_line(name@, value),
            ));
        }
        i += 1;
    }
    assert(nv.take(N as int) =~= nv);
    assert(values@.take(N as int) =~= values@);
}

/// Appends, for every stat with a nonzero value, its lowercase name and its
/// lowercase name followed by the value.
pub fn append_requirement_search_tokens<const N: usize>(
    tokens: &mut Vec<String>,
    names: &[&'static str; N],
    values: &[u8; N],
)
    ensures
        string_views(final(tokens)@) == string_views(old(tokens)@) + stat_tokens(
            str_views(names@),
            values@,
        ),
{
    let ghost nv = str_views(names@);
    let mut i: usize = 0;
    assert(values@.take(0) =~= Seq::<u8>::empty());
    assert(string_views(tokens@) =~= string_views(old(tokens)@) + stat_tokens(
        nv.take(0),
        values@.take(0),
    ));
    while i < N
        invariant
            i <= N,
            nv == str_views(names@),
            string_views(tokens@) == string_views(old(tokens)@) + stat_tokens(
                nv.take(i as int),
                values@.take(i as int),
            ),
        decreases N - i,
    {
        let name = names[i];
        let value = values[i];
        proof {
            assert(nv.take(i + 1).drop_last() =~= nv.take(i as int));
            assert(values@.take(i + 1).drop_last() =~= values@.take(i as int));
            assert(nv[i as int] == name@);
        }
        let ghost before = tokens@;
        if value > 0 {
            tokens.push(to_lowercase(name));
            let mut token = to_lowercase(name);
            proof {
                reveal_strlit(" ");
            }
            token.append(" ");
            append_nat(&mut token, value as u64);
            tokens.push(token);
            assert(string_views(tokens@) =~= string_views(before).push(lowercase(name@)).push(
                lowercase(name@) + " "@ + nat_text(value as nat),
            ));
        }
        i += 1;
    }
    assert(nv.take(N as int) =~= nv);
    assert(values@.take(N as int) =~= values@);
}

/// A copy of every string of the list.
pub fn clone_texts(items: &Vec<String>) -> (r: Vec<String>)
    ensures
        string_views(r@) == string_views(items@),
{
    let mut out: Vec<String> = Vec::new();
    let mut i: usize = 0;
    while i < items.len()
        invariant
            i <= items@.len(),
            string_views(out@) == string_views(items@).take(i as int),
        decreases items@.len() - i,
    {
        let ghost before = out@;
        let item = items[i].clone();
        out.push(item);
        proof {
            assert(out@ == before.push(item));
            assert(string_views(out@) =~= string_views(before).push(item@));
            assert(item@ == string_views(items@)[i as int]);
            assert(string_views(items@).take(i + 1) =~= string_views(items@).take(i as int).push(
                item@,
            ));
        }
        i += 1;
    }
    assert(string_views(items@).take(items@.len() as int) =~= string_views(items@));
    out
}

/// A talent, with its stat requirements and requirement notes.
#[derive(Debug)]
pub struct Talent {
    pub key: String,
    pub name: String,
    pub rarity: String,
    pub stats: StatBlock,
    pub requirement_notes: Vec<String>,
    pub variant_label: Option<String>,
}

/// The mathematical model of a talent.
pub struct TalentView {
    pub key: Seq<char>,
    pub name: Seq<char>,
    pub rarity: Seq<char>,
    pub stats: StatBlock,
    pub requirement_notes: Seq<Seq<char>>,
    pub variant_label: Option<Seq<char>>,
}

/// The view of an optional string.
pub open spec fn option_view(o: Option<String>) -> Option<Seq<char>> {
    match o {
        Some(s) => Some(s@),
        None => None,
    }
}

impl View for Talent {
    type V = TalentView;

    open spec fn view(&self) -> TalentView {
        TalentView {
            key: self.key@,
            name: self.name@,
            rarity: self.rarity@,
            stats: self.stats,
            requirement_notes: string_views(self.requirement_notes@),
            variant_label: option_view(self.variant_label),
        }
    }
}

impl Clone for Talent {
    fn clone(&self) -> (r: Self)
        ensures
            r@ == self@,
    {
        Talent {
            key: self.key.clone(),
            name: self.name.clone(),
            rarity: self.rarity.clone(),
            stats: self.stats,
            requirement_notes: clone_texts(&self.requirement_notes),
            variant_label: match &self.variant_label {
                Some(label) => Some(label.clone()),
                None => None,
            },
        }
    }
}

/// The name shown for a talent: its name, followed by its variant label in
/// parentheses when it has one.
pub open spec fn display_text(t: TalentView) -> Seq<char> {
    match t.variant_label {
        Some(label) => t.name + " ("@ + label + ")"@,
        None => t.name,
    }
}

/// The search tokens of a talent, in order.
pub open spec fn blob_tokens(t: TalentView) -> Seq<Seq<char>> {
    let head = seq![lowercase(t.name), lowercase(t.key), lowercase(t.rarity)];
    let with_label = match t.variant_label {
        Some(label) => head.push(lowercase(label)),
        None => head,
    };
    with_label + stat_tokens(str_views(BASE_STATS@), t.stats.base@) + stat_tokens(
        str_views(WEAPON_STATS@),
        t.stats.weapon@,
    ) + stat_tokens(str_views(ATTUNEMENT_STATS@), t.stats.attunement@)
        + t.requirement_notes.map_values(|n: Seq<char>| lowercase(n))
}

/// The lines describing a talent's requirements.
pub open spec fn requirement_text(t: TalentView) -> Seq<Seq<char>> {
    let lines = if t.requirement_notes.len() > 0 {
        t.requirement_notes
    } else {
        stat_lines(str_views(BASE_STATS@), t.stats.base@) + stat_lines(
            str_views(WEAPON_STATS@),
            t.stats.weapon@,
        ) + stat_lines(str_views(ATTUNEMENT_STATS@), t.stats.attunement@)
    };
    if lines.len() == 0 {
        seq!["No stat requirements"@]
    } else {
        lines
    }
}

impl Talent {
    /// The name shown for this talent.
    pub fn display_name(&self) -> (r: String)
        ensures
            r@ == display_text(self@),
    {
        match &self.variant_label {
            Some(label) => {
                let mut out = self.name.clone();
                out.append(" (");
                out.append(label.as_str());
                out.append(")");
                out
            },
            None => self.name.clone(),
        }
    }

    /// Everything a search matches against: the lowercase name, key, rarity
    /// and variant label, the required stats, and the requirement notes,
    /// separated by spaces.
    pub fn search_blob(&self) -> (r: String)
        ensures
            r@ == joined(blob_tokens(self@), " "@),
    {
        let mut tokens: Vec<String> = Vec::new();
        tokens.push(to_lowercase(self.name.as_str()));
        tokens.push(to_lowercase(self.key.as_str()));
        tokens.push(to_lowercase(self.rarity.as_str()));
        if let Some(label) = &self.variant_label {
            tokens.push(to_lowercase(label.as_str()));
        }
        append_requirement_search_tokens(&mut tokens, &BASE_STATS, &self.stats.base);
        append_requirement_search_tokens(&mut tokens, &WEAPON_STATS, &self.stats.weapon);
        append_requirement_search_tokens(&mut tokens, &ATTUNEMENT_STATS, &self.stats.attunement);
        let ghost before = string_views(tokens@);
        let mut i: usize = 0;
        while i < self.requirement_notes.len()
            invariant
                i <= self.requirement_notes@.len(),
                string_views(tokens@) == before + string_views(self.requirement_notes@).take(
                    i as int,
                ).map_values(|n: Seq<char>| lowercase(n)),
            decreases self.requirement_notes@.len() - i,
        {
            let ghost prev = tokens@;
            let token = to_lowercase(self.requirement_notes[i].as_str());
            tokens.push(token);
            proof {
                let f = |n: Seq<char>| lowercase(n);
                let notes = string_views(self.requirement_notes@);
                assert(tokens@ == prev.push(token));
                assert(string_views(tokens@) =~= string_views(prev).push(token@));
                assert(notes[i as int] == self.requirement_notes@[i as int]@);
                assert(notes.take(i + 1).map_values(f) =~= notes.take(i as int).map_values(f).push(
                    f(notes[i as int]),
                ));
                assert(string_views(tokens@) =~= before + notes.take(i + 1).map_values(f));
            }
            i += 1;
        }
        assert(string_views(self.requirement_notes@).take(self.requirement_notes@.len() as int)
            =~= string_views(self.requirement_notes@));
        assert(string_views(tokens@) =~= blob_tokens(self@));
        crate::text::join_texts(&tokens, " ")
    }

    /// The lines describing this talent's requirements: its notes when it has
    /// any, else its required stats, else a line saying there are none.
    pub fn requirement_lines(&self) -> (r: Vec<String>)
        ensures
            string_views(r@) == requirement_text(self@),
    {
        let mut lines: Vec<String> = Vec::new();
        if self.requirement_notes.len() > 0 {
            lines = clone_texts(&self.requirement_notes);
        } else {
            collect_stat_lines(&mut lines, &BASE_STATS, &self.stats.base);
            collect_stat_lines(&mut lines, &WEAPON_STATS, &self.stats.weapon);
            collect_stat_lines(&mut lines, &ATTUNEMENT_STATS, &self.stats.attunement);
        }
        if lines.len() == 0 {
            lines.push("No stat requirements".to_owned());
        }
        assert(string_views(lines@) =~= requirement_text(self@));
        lines
    }
}

/// The text pushed for a requirement note: prefixed with `OR ` when it is
/// one of several alternatives.
pub open spec fn note_text(nested_or: bool, text: Seq<char>) -> Seq<char> {
    if nested_or {
        "OR "@ + text
    } else {
        text
    }
}

/// Appends a requirement note, marked as an alternative when `nested_or`.
pub fn push_requirement_note(notes: &mut Vec<String>, nested_or: bool, text: String)
    ensures
        string_views(final(notes)@) == string_views(old(notes)@).push(note_text(nested_or, text@)),
{
    if nested_or {
        let mut note = String::from_str("OR ");
        note.append(text.as_str());
        notes.push(note);
    } else {
        notes.push(text);
    }
    assert(string_views(notes@) =~= string_views(old(notes)@).push(note_text(nested_or, text@)));
}

/// The key with its first character in upper case.
pub open spec fn title_text(key: Seq<char>) -> Seq<char> {
    if key.len() == 0 {
        Seq::empty()
    } else {
        char_uppercase(key[0]) + key.drop_first()
    }
}

/// The key with its first character in upper case.
pub fn title_case(key: &str) -> (r: String)
    ensures
        r@ == title_text(key@),
{
    let n = key.unicode_len();
    if n == 0 {
        String::new()
    } else {
        let first = key.get_char(0);
        let mut out = uppercase_char(first);
        out.append(key.substring_char(1, n));
        assert(key@.subrange(1, n as int) =~= key@.drop_first());
        out
    }
}

/// The texts without repeats, each kept where it first occurs.
pub open spec fn first_occurrences(s: Seq<Seq<char>>) -> Seq<Seq<char>>
    decreases s.len(),
{
    if s.len() == 0 {
        Seq::empty()
    } else {
        let r = first_occurrences(s.drop_last());
        if r.contains(s.last()) {
            r
        } else {
            r.push(s.last())
        }
    }
}

/// The strings without repeats, each kept where it first occurs.
pub fn dedup_strings(items: Vec<String>) -> (r: Vec<String>)
    ensures
        string_views(r@) == first_occurrences(string_views(items@)),
{
    let ghost views = string_views(items@);
    let mut deduped: Vec<String> = Vec::new();
    let mut i: usize = 0;
    assert(views.take(0) =~= Seq::<Seq<char>>::empty());
    while i < items.len()
        invariant
            i <= items@.len(),
            views == string_views(items@),
            string_views(deduped@) == first_occurrences(views.take(i as int)),
        decreases items@.len() - i,
    {
        let mut found = false;
        let mut j: usize = 0;
        while j < deduped.len()
            invariant
                j <= deduped@.len(),
                i < items@.len(),
                found == exists|q: int| 0 <= q < j && deduped@[q]@ == items@[i as int]@,
            decreases deduped@.len() - j,
        {
            if deduped[j] == items[i] {
                found = true;
            }
            j += 1;
        }
        proof {
            assert(views.take(i + 1).drop_last() =~= views.take(i as int));
            assert(views.take(i + 1).last() == items@[i as int]@);
            let dv = string_views(deduped@);
            if found {
                let q = choose|q: int| 0 <= q < deduped@.len() && deduped@[q]@ == items@[i as int]@;
                assert(dv[q] == items@[i as int]@);
                assert(dv.contains(items@[i as int]@));
            } else {
                assert forall|q: int| 0 <= q < dv.len() implies dv[q] != items@[i as int]@ by {
                    assert(dv[q] == deduped@[q]@);
                }
                assert(!dv.contains(items@[i as int]@));
            }
        }
        if !found {
            let ghost before = deduped@;
            let item = items[i].clone();
            deduped.push(item);
            assert(string_views(deduped@) =~= string_views(before).push(item@));
        }
        i += 1;
    }
    assert(views.take(items@.len() as int) =~= views);
    deduped
}

/// The flat index of the stat a requirement chip names, if it names one.
pub open spec fn chip_slot(label: Seq<char>) -> Option<int> {
    if label == "Strength"@ {
        Some(0)
    } else if label == "Fortitude"@ {
        Some(1)
    } else if label == "Agility"@ {
        Some(2)
    } else if label == "Intelligence"@ {
        Some(3)
    } else if label == "Willpower"@ {
        Some(4)
    } else if label == "Charisma"@ {
        Some(5)
    } else if label == "Weapon"@ || label == "Mind"@ || label == "Body"@ || label == "Attunement"@ {
        None
    } else if label == "Heavy Weapon"@ || label == "Heavy Wep."@ {
        Some(6)
    } else if label == "Medium Weapon"@ || label == "Medium Wep."@ {
        Some(7)
    } else if label == "Light Weapon"@ || label == "Light Wep."@ {
        Some(8)
    } else if label == "Flamecharm"@ {
        Some(9)
    } else if label == "Frostdraw"@ {
        Some(10)
    } else if label == "Thundercall"@ {
        Some(11)
    } else if label == "Galebreathe"@ {
        Some(12)
    } else if label == "Shadowcast"@ {
        Some(13)
    } else if label == "Ironsing"@ {
        Some(14)
    } else if label == "Bloodrend"@ || label == "Bloodrender"@ {
        Some(15)
    } else {
        None
    }
}

/// Raises one stat to at least `value`.
pub(crate) fn raise_stat(stats: &mut StatBlock, section: StatSection, index: usize, value: u8)
    requires
        index < section_len(section),
    ensures
        final(stats)@ == old(stats)@.update(
            section_offset(section) + index,
            max_u8(old(stats)@[section_offset(section) + index], value),
        ),
{
    let current = read_stat(stats, section, index);
    let raised = if current >= value {
        current
    } else {
        value
    };
    write_stat(stats, section, index, raised);
}

/// Raises the stat a requirement chip names to at least `value`; chips that
/// name a group of stats, or nothing known, change nothing.
pub fn assign_chip_requirement(stats: &mut StatBlock, label: &str, value: u8)
    ensures
        final(stats)@ == match chip_slot(label@) {
            Some(i) => old(stats)@.update(i, max_u8(old(stats)@[i], value)),
            None => old(stats)@,
        },
{
    if text_eq(label, "Strength") {
        raise_stat(stats, StatSection::Base, 0, value);
    } else if text_eq(label, "Fortitude") {
        raise_stat(stats, StatSection::Base, 1, value);
    } else if text_eq(label, "Agility") {
        raise_stat(stats, StatSection::Base, 2, value);
    } else if text_eq(label, "Intelligence") {
        raise_stat(stats, StatSection::Base, 3, value);
    } else if text_eq(label, "Willpower") {
        raise_stat(stats, StatSection::Base, 4, value);
    } else if text_eq(label, "Charisma") {
        raise_stat(stats, StatSection::Base, 5, value);
    } else if text_eq(label, "Weapon") || text_eq(label, "Mind") || text_eq(label, "Body")
        || text_eq(label, "Attunement") {
    } else if text_eq(label, "Heavy Weapon") || text_eq(label, "Heavy Wep.") {
        raise_stat(stats, StatSection::Weapon, 0, value);
    } else if text_eq(label, "Medium Weapon") || text_eq(label, "Medium Wep.") {
        raise_stat(stats, StatSection::Weapon, 1, value);
    } else if text_eq(label, "Light Weapon") || text_eq(label, "Light Wep.") {
        raise_stat(stats, StatSection::Weapon, 2, value);
    } else if text_eq(label, "Flamecharm") {
        raise_stat(stats, StatSection::Attunement, 0, value);
    } else if text_eq(label, "Frostdraw") {
        raise_stat(stats, StatSection::Attunement, 1, value);
    } else if text_eq(label, "Thundercall") {
        raise_stat(stats, StatSection::Attunement, 2, value);
    } else if text_eq(label, "Galebreathe") {
        raise_stat(stats, StatSection::Attunement, 3, value);
    } else if text_eq(label, "Shadowcast") {
        raise_stat(stats, StatSection::Attunement, 4, value);
    } else if text_eq(label, "Ironsing") {
        raise_stat(stats, StatSection::Attunement, 5, value);
    } else if text_eq(label, "Bloodrend") || text_eq(label, "Bloodrender") {
        raise_stat(stats, StatSection::Attunement, 6, value);
    }
}

/// The views of a sequence of talents.
pub open spec fn talent_views(s: Seq<Talent>) -> Seq<TalentView> {
    s.map_values(|t: Talent| t@)
}

/// The order in which talents are listed: by name, then by key.
pub open spec fn talent_before(x: TalentView, y: TalentView) -> bool {
    text_less(x.name, y.name) || (x.name == y.name && text_less(x.key, y.key))
}

/// True when no later talent of `s` has the key of the one at `i`.
pub open spec fn last_of_key(s: Seq<TalentView>, i: int) -> bool {
    0 <= i < s.len() && forall|j: int| i < j < s.len() ==> s[j].key != s[i].key
}

/// True when `x` is the last talent of `s` with its key.
pub open spec fn is_last_copy(s: Seq<TalentView>, x: TalentView) -> bool {
    exists|i: int| #![trigger s[i]] last_of_key(s, i) && s[i] == x
}

/// True when `t` holds, for every key of `s`, the last talent of `s` with
/// that key, and nothing else, listed by name and then by key: what
/// de-duplicating and sorting `s` gives.
pub open spec fn listed_from(t: Seq<TalentView>, s: Seq<TalentView>) -> bool {
    &&& forall|a: int, b: int|
        #![trigger t[a], t[b]]
        0 <= a < b < t.len() ==> talent_before(t[a], t[b]) && t[a].key != t[b].key
    &&& forall|a: int| 0 <= a < t.len() ==> is_last_copy(s, #[trigger] t[a])
    &&& forall|i: int| last_of_key(s, i) ==> exists|a: int| 0 <= a < t.len() && #[trigger] t[a] == s[i]
}

/// The listing order is transitive.
pub proof fn lemma_talent_before_transitive(x: TalentView, y: TalentView, z: TalentView)
    requires
        talent_before(x, y),
        talent_before(y, z),
    ensures
        talent_before(x, z),
{
    if text_less(x.name, y.name) && text_less(y.name, z.name) {
        lemma_text_less_transitive(x.name, y.name, z.name);
    } else if text_less(x.name, y.name) {
    } else if text_less(y.name, z.name) {
    } else {
        lemma_text_less_transitive(x.key, y.key, z.key);
    }
}

/// Talents with different keys are listed one way or the other.
pub proof fn lemma_talent_before_total(x: TalentView, y: TalentView)
    requires
        x.key != y.key,
    ensures
        talent_before(x, y) || talent_before(y, x),
{
    if x.name == y.name {
        lemma_text_less_total(x.key, y.key);
    } else {
        lemma_text_less_total(x.name, y.name);
    }
}

/// No talent is listed before itself, and the order is asymmetric.
pub proof fn lemma_talent_before_asymmetric(x: TalentView, y: TalentView)
    requires
        talent_before(x, y),
    ensures
        !talent_before(y, x),
{
    if talent_before(y, x) {
        lemma_talent_before_transitive(x, y, x);
        lemma_text_less_irreflexive(x.name);
        lemma_text_less_irreflexive(x.key);
    }
}

/// True when `x` is listed before `y`.
pub fn talent_listed_before(x: &Talent, y: &Talent) -> (r: bool)
    ensures
        r == talent_before(x@, y@),
{
    if text_less_than(x.name.as_str(), y.name.as_str()) {
        true
    } else if x.name == y.name {
        text_less_than(x.key.as_str(), y.key.as_str())
    } else {
        false
    }
}

/// Listed in order, with no key twice.
pub open spec fn sorted_distinct(s: Seq<TalentView>) -> bool {
    &&& forall|a: int, b: int| 0 <= a < b < s.len() ==> talent_before(s[a], s[b])
    &&& forall|a: int, b: int| 0 <= a < b < s.len() ==> s[a].key != s[b].key
}

/// Inserting a talent with a new key at the first place where it is listed
/// before its neighbour keeps the list in order.
pub proof fn lemma_insert_sorted(s: Seq<TalentView>, t: TalentView, p: int)
    requires
        sorted_distinct(s),
        0 <= p <= s.len(),
        forall|q: int| 0 <= q < s.len() ==> s[q].key != t.key,
        forall|q: int| 0 <= q < p ==> !talent_before(t, s[q]),
        p < s.len() ==> talent_before(t, s[p]),
    ensures
        sorted_distinct(s.insert(p, t)),
{
    let n = s.insert(p, t);
    assert forall|q: int| 0 <= q < p implies talent_before(s[q], t) by {
        lemma_talent_before_total(s[q], t);
    }
    assert forall|q: int| p <= q < s.len() implies talent_before(t, s[q]) by {
        if q > p {
            lemma_talent_before_transitive(t, s[p], s[q]);
        }
    }
    assert forall|a: int, b: int| 0 <= a < b < n.len() implies talent_before(n[a], n[b]) by {
        if a < p && b > p {
            lemma_talent_before_transitive(s[a], t, s[b - 1]);
        }
    }
}

/// The last talent of every key, each key once.
fn keep_last_per_key(talents: &Vec<Talent>) -> (r: Vec<Talent>)
    ensures
        forall|a: int, b: int| 0 <= a < b < r@.len() ==> r@[a]@.key != r@[b]@.key,
        forall|a: int|
            0 <= a < r@.len() ==> is_last_copy(talent_views(talents@), (#[trigger] r@[a])@),
        forall|i: int|
            last_of_key(talent_views(talents@), i) ==> exists|a: int|
                0 <= a < r@.len() && (#[trigger] r@[a])@ == talents@[i]@,
{
    let ghost s = talent_views(talents@);
    let mut by_key: Vec<Talent> = Vec::new();
    let ghost mut src: Seq<int> = Seq::empty();
    let mut k: usize = 0;
    while k < talents.len()
        invariant
            k <= talents@.len(),
            s == talent_views(talents@),
            by_key@.len() == src.len(),
            forall|a: int|
                0 <= a < by_key@.len() ==> 0 <= #[trigger] src[a] < k && by_key@[a]@ == s[src[a]]
                    && forall|j: int| #![trigger s[j]] src[a] < j < k ==> s[j].key != s[src[a]].key,
            forall|a: int, b: int|
                0 <= a < b < by_key@.len() ==> by_key@[a]@.key != by_key@[b]@.key,
            forall|i: int|
                0 <= i < k ==> exists|a: int| 0 <= a < by_key@.len() && by_key@[a]@.key == #[trigger] s[i].key,
        decreases talents@.len() - k,
    {
        let mut found: Option<usize> = None;
        let mut j: usize = 0;
        while j < by_key.len()
            invariant
                j <= by_key@.len(),
                k < talents@.len(),
                match found {
                    Some(q) => q < by_key@.len() && by_key@[q as int]@.key == talents@[k as int]@.key,
                    None => forall|q: int| 0 <= q < j ==> by_key@[q]@.key != talents@[k as int]@.key,
                },
            decreases by_key@.len() - j,
        {
            if by_key[j].key == talents[k].key {
                found = Some(j);
            }
            j += 1;
        }
        let talent = talents[k].clone();
        assert(s[k as int] == talent@);
        match found {
            Some(q) => {
                let ghost old_by_key = by_key@;
                by_key.set(q, talent);
                proof {
                    src = src.update(q as int, k as int);
                    assert forall|a: int|
                        0 <= a < by_key@.len() implies 0 <= #[trigger] src[a] < k + 1 && by_key@[a]@
                        == s[src[a]] && forall|j2: int| #![trigger s[j2]] src[a] < j2 < k + 1 ==> s[j2].key != s[src[a]].key by {
                        if a != q {
                            assert(by_key@[a] == old_by_key[a]);
                            if a < q {
                                assert(old_by_key[a]@.key != old_by_key[q as int]@.key);
                            } else {
                                assert(old_by_key[q as int]@.key != old_by_key[a]@.key);
                            }
                        }
                    }
                    assert forall|a: int, b: int|
                        0 <= a < b < by_key@.len() implies by_key@[a]@.key != by_key@[b]@.key by {
                        assert(by_key@[a]@.key == old_by_key[a]@.key);
                        assert(by_key@[b]@.key == old_by_key[b]@.key);
                    }
                    assert forall|i: int| 0 <= i < k + 1 implies exists|a: int|
                        0 <= a < by_key@.len() && by_key@[a]@.key == #[trigger] s[i].key by {
                        if i < k {
                            let a = choose|a: int|
                                0 <= a < old_by_key.len() && old_by_key[a]@.key == s[i].key;
                            assert(by_key@[a]@.key == old_by_key[a]@.key);
                        } else {
                            assert(by_key@[q as int]@.key == s[i].key);
                        }
                    }
                }
            },
            None => {
                let ghost old_by_key = by_key@;
                by_key.push(talent);
                proof {
                    src = src.push(k as int);
                    assert forall|a: int|
                        0 <= a < by_key@.len() implies 0 <= #[trigger] src[a] < k + 1 && by_key@[a]@
                        == s[src[a]] && forall|j2: int| #![trigger s[j2]] src[a] < j2 < k + 1 ==> s[j2].key != s[src[a]].key by {
                        if a < old_by_key.len() {
                            assert(by_key@[a] == old_by_key[a]);
                        }
                    }
                    assert forall|a: int, b: int|
                        0 <= a < b < by_key@.len() implies by_key@[a]@.key != by_key@[b]@.key by {
                        if b < old_by_key.len() {
                            assert(by_key@[a] == old_by_key[a]);
                            assert(by_key@[b] == old_by_key[b]);
                        } else {
                            assert(by_key@[a] == old_by_key[a]);
                        }
                    }
                    assert forall|i: int| 0 <= i < k + 1 implies exists|a: int|
                        0 <= a < by_key@.len() && by_key@[a]@.key == #[trigger] s[i].key by {
                        if i < k {
                            let a = choose|a: int|
                                0 <= a < old_by_key.len() && old_by_key[a]@.key == s[i].key;
                            assert(by_key@[a] == old_by_key[a]);
                        } else {
                            assert(by_key@[old_by_key.len() as int]@.key == s[i].key);
                        }
                    }
                }
            },
        }
        k += 1;
    }

    proof {
        assert forall|a: int| 0 <= a < by_key@.len() implies is_last_copy(
            talent_views(talents@),
            (#[trigger] by_key@[a])@,
        ) by {
            let i = src[a];
            assert(s[i] == talents@[i]@);
            assert forall|j: int| i < j < s.len() implies s[j].key != s[i].key by {
                assert(s[j] == s[j]);
            }
            assert(last_of_key(talent_views(talents@), i));
            assert(by_key@[a]@ == talents@[i]@);
            assert(talent_views(talents@)[i] == by_key@[a]@);
        }
        assert forall|i: int| last_of_key(talent_views(talents@), i) implies exists|a: int|
            0 <= a < by_key@.len() && (#[trigger] by_key@[a])@ == talents@[i]@ by {
            assert(s[i] == talents@[i]@);
            let b = choose|b: int| 0 <= b < by_key@.len() && by_key@[b]@.key == s[i].key;
            let j = src[b];
            if j < i {
                assert(s[i].key != s[j].key);
            } else if j > i {
                assert(s[j].key != s[i].key);
            }
            assert(by_key@[b]@ == talents@[i]@);
        }
    }
    by_key
}

/// Inserting keeps every earlier member and adds the new one.
pub proof fn lemma_insert_contains(s: Seq<TalentView>, t: TalentView, p: int)
    requires
        0 <= p <= s.len(),
    ensures
        s.insert(p, t).contains(t),
        forall|x: TalentView| s.contains(x) ==> #[trigger] s.insert(p, t).contains(x),
        forall|x: TalentView| #[trigger] s.insert(p, t).contains(x) ==> s.contains(x) || x == t,
{
    s.insert_ensures(p, t);
    let n = s.insert(p, t);
    assert(n[p] == t);
    assert forall|x: TalentView| s.contains(x) implies #[trigger] n.contains(x) by {
        let q = choose|q: int| 0 <= q < s.len() && s[q] == x;
        if q < p {
            assert(n[q] == x);
        } else {
            assert(n[q + 1] == x);
        }
    }
    assert forall|x: TalentView| #[trigger] n.contains(x) implies s.contains(x) || x == t by {
        let q = choose|q: int| 0 <= q < n.len() && n[q] == x;
        if q < p {
            assert(s[q] == x);
        } else if q > p {
            assert(s[q - 1] == x);
        }
    }
}

/// The talents listed by name and then by key.
fn sort_talents(by_key: &Vec<Talent>) -> (r: Vec<Talent>)
    requires
        forall|a: int, b: int| 0 <= a < b < by_key@.len() ==> by_key@[a]@.key != by_key@[b]@.key,
    ensures
        sorted_distinct(talent_views(r@)),
        forall|q: int| 0 <= q < r@.len() ==> talent_views(by_key@).contains(#[trigger] talent_views(r@)[q]),
        forall|a: int| 0 <= a < by_key@.len() ==> talent_views(r@).contains(#[trigger] talent_views(by_key@)[a]),
{
    let ghost bk = talent_views(by_key@);
    let mut sorted: Vec<Talent> = Vec::new();
    let mut m: usize = 0;
    while m < by_key.len()
        invariant
            m <= by_key@.len(),
            bk == talent_views(by_key@),
            forall|a: int, b: int| 0 <= a < b < bk.len() ==> bk[a].key != bk[b].key,
            sorted_distinct(talent_views(sorted@)),
            forall|q: int| 0 <= q < sorted@.len() ==> bk.take(m as int).contains(#[trigger] talent_views(sorted@)[q]),
            forall|a: int| 0 <= a < m ==> talent_views(sorted@).contains(#[trigger] bk[a]),
        decreases by_key@.len() - m,
    {
        let mut p: usize = 0;
        while p < sorted.len() && !talent_listed_before(&by_key[m], &sorted[p])
            invariant
                p <= sorted@.len(),
                m < by_key@.len(),
                forall|q: int| 0 <= q < p ==> !talent_before(by_key@[m as int]@, sorted@[q]@),
            decreases sorted@.len() - p,
        {
            p += 1;
        }
        let t = by_key[m].clone();
        let ghost sv = talent_views(sorted@);
        let ghost tv = t@;
        proof {
            assert(tv == bk[m as int]);
            assert forall|q: int| 0 <= q < sv.len() implies sv[q].key != tv.key by {
                assert(bk.take(m as int).contains(sv[q]));
                let a = choose|a: int| 0 <= a < m && bk.take(m as int)[a] == sv[q];
                assert(bk[a].key != bk[m as int].key);
            }
            assert forall|q: int| 0 <= q < p implies !talent_before(tv, sv[q]) by {
                assert(sv[q] == sorted@[q]@);
            }
            if p < sv.len() {
                assert(sv[p as int] == sorted@[p as int]@);
            }
            lemma_insert_sorted(sv, tv, p as int);
            lemma_insert_contains(sv, tv, p as int);
        }
        sorted.insert(p, t);
        proof {
            let nv = talent_views(sorted@);
            assert(nv =~= sv.insert(p as int, tv));
            assert forall|q: int| 0 <= q < nv.len() implies bk.take(m + 1).contains(#[trigger] nv[q]) by {
                assert(sv.insert(p as int, tv).contains(nv[q]));
                if nv[q] == tv {
                    assert(bk.take(m + 1)[m as int] == tv);
                } else {
                    assert(sv.contains(nv[q]));
                    let q2 = choose|q2: int| 0 <= q2 < sv.len() && sv[q2] == nv[q];
                    assert(bk.take(m as int).contains(sv[q2]));
                    let a = choose|a: int| 0 <= a < m && bk.take(m as int)[a] == sv[q2];
                    assert(bk.take(m + 1)[a] == nv[q]);
                }
            }
            assert forall|a: int| 0 <= a < m + 1 implies nv.contains(#[trigger] bk[a]) by {
                if a < m {
                    assert(sv.contains(bk[a]));
                }
            }
        }
        m += 1;
    }
    proof {
        assert(bk.take(m as int) =~= bk);
    }
    sorted
}

/// Keeps, for every key, the last talent with that key, and lists them by name
/// and then by key.
pub fn dedup_and_sort_talents(talents: Vec<Talent>) -> (r: Vec<Talent>)
    ensures
        listed_from(talent_views(r@), talent_views(talents@)),
{
    let by_key = keep_last_per_key(&talents);
    let sorted = sort_talents(&by_key);
    proof {
        let bk = talent_views(by_key@);
        let sv = talent_views(sorted@);
        let tv = talent_views(talents@);
        assert forall|a: int, b: int| #![trigger sv[a], sv[b]] 0 <= a < b < sv.len() implies talent_before(
            sv[a],
            sv[b],
        ) && sv[a].key != sv[b].key by {
            assert(sv[a] == sorted@[a]@);
            assert(sv[b] == sorted@[b]@);
        }
        assert forall|a: int| 0 <= a < sv.len() implies is_last_copy(tv, #[trigger] sv[a]) by {
            assert(bk.contains(sv[a]));
            let b = choose|b: int| 0 <= b < bk.len() && bk[b] == sv[a];
            assert(bk[b] == by_key@[b]@);
        }
        assert forall|i: int| last_of_key(tv, i) implies exists|a: int|
            0 <= a < sv.len() && #[trigger] sv[a] == tv[i] by {
            assert(tv[i] == talents@[i]@);
            let b = choose|b: int| 0 <= b < by_key@.len() && (#[trigger] by_key@[b])@ == talents@[i]@;
            assert(bk[b] == by_key@[b]@);
            assert(sv.contains(bk[b]));
            let q = choose|q: int| 0 <= q < sv.len() && sv[q] == bk[b];
        }
    }
    sorted
}

} // verus!
