use vstd::prelude::*;
use vstd::string::StringExecFns;

use crate::nuxt::{
    json_array, json_object, json_text, json_u8, member, nuxt_array, nuxt_object, nuxt_string,
    nuxt_u8, object_get, JsonValue,
};
use crate::stats::{max_u8, section_len, section_offset, zero_stats, StatBlock, StatSection};
use crate::talent::{
    assign_chip_requirement, chip_slot, clone_texts, note_text, option_view,
    push_requirement_note, raise_stat, stat_line, str_views, title_case, title_text,
    ATTUNEMENT_STATS,
};
use crate::text::{append_nat, join_texts, joined, string_views, text_eq};

verus! {

/// The choices a `Weapon` requirement offers.
pub const WEAPON_CHOICES: [&'static str; 3] = ["Heavy Weapon", "Medium Weapon", "Light Weapon"];

/// The choices a `Mind` requirement offers.
pub const MIND_CHOICES: [&'static str; 3] = ["Intelligence", "Willpower", "Charisma"];

/// The choices a `Body` requirement offers.
pub const BODY_CHOICES: [&'static str; 3] = ["Strength", "Fortitude", "Agility"];

/// The requirement keys whose value is one text.
pub const TEXT_KEYS: [&'static str; 5] = ["weapon", "equipment", "outfit", "origin", "memento"];

/// The requirement keys whose value is a list of texts.
pub const LIST_KEYS: [&'static str; 4] = ["talents", "mantras", "objectives", "quests"];

/// One way of meeting a talent's requirements: the stats it asks for, the
/// notes that describe it, and the labels of the alternatives it took.
#[derive(Debug)]
pub struct RequirementVariant {
    pub stats: StatBlock,
    pub requirement_notes: Vec<String>,
    pub variant_labels: Vec<String>,
}

/// The mathematical model of a requirement variant.
pub struct VariantView {
    pub stats: Seq<u8>,
    pub notes: Seq<Seq<char>>,
    pub labels: Seq<Seq<char>>,
}

impl View for RequirementVariant {
    type V = VariantView;

    open spec fn view(&self) -> VariantView {
        VariantView {
            stats: self.stats@,
            notes: string_views(self.requirement_notes@),
            labels: string_views(self.variant_labels@),
        }
    }
}

/// The views of a sequence of variants.
pub open spec fn variant_views(s: Seq<RequirementVariant>) -> Seq<VariantView> {
    s.map_values(|v: RequirementVariant| v@)
}

/// The variant that asks for nothing.
pub open spec fn empty_variant() -> VariantView {
    VariantView { stats: zero_stats(), notes: Seq::empty(), labels: Seq::empty() }
}

impl Clone for RequirementVariant {
    fn clone(&self) -> (r: Self)
        ensures
            r@ == self@,
    {
        RequirementVariant {
            stats: self.stats,
            requirement_notes: clone_texts(&self.requirement_notes),
            variant_labels: clone_texts(&self.variant_labels),
        }
    }
}

impl Default for RequirementVariant {
    fn default() -> (r: Self)
        ensures
            r@ == empty_variant(),
    {
        let r = RequirementVariant {
            stats: StatBlock::default(),
            requirement_notes: Vec::new(),
            variant_labels: Vec::new(),
        };
        assert(string_views(r.requirement_notes@) =~= Seq::<Seq<char>>::empty());
        assert(string_views(r.variant_labels@) =~= Seq::<Seq<char>>::empty());
        r
    }
}

/// The stats with the one at `i` raised to at least `value`.
pub open spec fn raise(stats: Seq<u8>, i: int, value: u8) -> Seq<u8> {
    stats.update(i, max_u8(stats[i], value))
}

/// The variant with one more note.
pub open spec fn with_note(v: VariantView, nested_or: bool, text: Seq<char>) -> VariantView {
    VariantView { stats: v.stats, notes: v.notes.push(note_text(nested_or, text)), labels: v.labels }
}

/// The variant that takes the stat named `label`, at flat index `slot`, as
/// the way to meet a grouped requirement of `value`.
pub open spec fn group_choice(
    v: VariantView,
    label: Seq<char>,
    slot: int,
    value: u8,
    nested_or: bool,
) -> VariantView {
    VariantView {
        stats: raise(v.stats, slot, value),
        notes: v.notes.push(note_text(nested_or, stat_line(label, value))),
        labels: v.labels.push(label),
    }
}

/// The choices one variant offers for a grouped requirement: one per stat of
/// the group, in order.
pub open spec fn group_choices(
    v: VariantView,
    labels: Seq<Seq<char>>,
    offset: int,
    value: u8,
    nested_or: bool,
) -> Seq<VariantView> {
    Seq::new(labels.len(), |j: int| group_choice(v, labels[j], offset + j, value, nested_or))
}

/// Every variant replaced, in order, by its choices for a grouped requirement.
pub open spec fn group_fan(
    vs: Seq<VariantView>,
    labels: Seq<Seq<char>>,
    offset: int,
    value: u8,
    nested_or: bool,
) -> Seq<VariantView>
    decreases vs.len(),
{
    if vs.len() == 0 {
        Seq::empty()
    } else {
        group_fan(vs.drop_last(), labels, offset, value, nested_or) + group_choices(
            vs.last(),
            labels,
            offset,
            value,
            nested_or,
        )
    }
}

/// The names a grouped requirement chip offers and the flat index of the
/// first of them, or `None` for a chip that names one stat or nothing known.
pub open spec fn stat_group(label: Seq<char>) -> Option<(Seq<Seq<char>>, int)> {
    if label == "Weapon"@ {
        Some((str_views(WEAPON_CHOICES@), 6))
    } else if label == "Mind"@ {
        Some((str_views(MIND_CHOICES@), 3))
    } else if label == "Body"@ {
        Some((str_views(BODY_CHOICES@), 0))
    } else if label == "Attunement"@ {
        Some((str_views(ATTUNEMENT_STATS@), 9))
    } else {
        None
    }
}

/// A variant after a chip that names one stat (or nothing known).
pub open spec fn chip_choice(v: VariantView, label: Seq<char>, value: u8, nested_or: bool) -> VariantView {
    VariantView {
        stats: match chip_slot(label) {
            Some(i) => raise(v.stats, i, value),
            None => v.stats,
        },
        notes: v.notes.push(note_text(nested_or, stat_line(label, value))),
        labels: v.labels,
    }
}

/// The variants after one stat requirement chip.
pub open spec fn stat_step(vs: Seq<VariantView>, label: Seq<char>, value: u8, nested_or: bool) -> Seq<
    VariantView,
> {
    match stat_group(label) {
        Some((names, offset)) => group_fan(vs, names, offset, value, nested_or),
        None => vs.map_values(|v: VariantView| chip_choice(v, label, value, nested_or)),
    }
}

/// The text `label: value`.
fn stat_note(label: &str, value: u8) -> (r: String)
    ensures
        r@ == stat_line(label@, value),
{
    let mut line = String::from_str(label);
    proof {
        reveal_strlit(": ");
    }
    line.append(": ");
    append_nat(&mut line, value as u64);
    line
}

/// Every variant with one more note.
fn note_all(variants: Vec<RequirementVariant>, nested_or: bool, text: &str) -> (r: Vec<
    RequirementVariant,
>)
    ensures
        variant_views(r@) == variant_views(variants@).map_values(
            |v: VariantView| with_note(v, nested_or, text@),
        ),
{
    let ghost target = variant_views(variants@).map_values(
        |v: VariantView| with_note(v, nested_or, text@),
    );
    let mut out: Vec<RequirementVariant> = Vec::new();
    let mut i: usize = 0;
    while i < variants.len()
        invariant
            i <= variants@.len(),
            target == variant_views(variants@).map_values(
                |v: VariantView| with_note(v, nested_or, text@),
            ),
            variant_views(out@) == target.take(i as int),
        decreases variants@.len() - i,
    {
        let mut next = variants[i].clone();
        push_requirement_note(&mut next.requirement_notes, nested_or, String::from_str(text));
        proof {
            assert(variant_views(variants@)[i as int] == variants@[i as int]@);
            assert(next@ == target[i as int]);
        }
        let ghost before = out@;
        out.push(next);
        proof {
            assert(variant_views(out@) =~= variant_views(before).push(next@));
            assert(target.take(i + 1) =~= target.take(i as int).push(target[i as int]));
        }
        i += 1;
    }
    assert(target.take(variants@.len() as int) =~= target);
    out
}

/// Every variant after a chip that names one stat (or nothing known).
fn chip_all(variants: Vec<RequirementVariant>, label: &str, value: u8, nested_or: bool) -> (r: Vec<
    RequirementVariant,
>)
    ensures
        variant_views(r@) == variant_views(variants@).map_values(
            |v: VariantView| chip_choice(v, label@, value, nested_or),
        ),
{
    let ghost target = variant_views(variants@).map_values(
        |v: VariantView| chip_choice(v, label@, value, nested_or),
    );
    let mut out: Vec<RequirementVariant> = Vec::new();
    let mut i: usize = 0;
    while i < variants.len()
        invariant
            i <= variants@.len(),
            target == variant_views(variants@).map_values(
                |v: VariantView| chip_choice(v, label@, value, nested_or),
            ),
            variant_views(out@) == target.take(i as int),
        decreases variants@.len() - i,
    {
        let mut next = variants[i].clone();
        assign_chip_requirement(&mut next.stats, label, value);
        push_requirement_note(&mut next.requirement_notes, nested_or, stat_note(label, value));
        proof {
            assert(variant_views(variants@)[i as int] == variants@[i as int]@);
            assert(next@ == target[i as int]);
        }
        let ghost before = out@;
        out.push(next);
        proof {
            assert(variant_views(out@) =~= variant_views(before).push(next@));
            assert(target.take(i + 1) =~= target.take(i as int).push(target[i as int]));
        }
        i += 1;
    }
    assert(target.take(variants@.len() as int) =~= target);
    out
}

/// Every variant replaced, in order, by its choices for a grouped
/// requirement whose stats start at `first` in `section`.
fn fan_out(
    variants: Vec<RequirementVariant>,
    labels: &[&'static str],
    section: StatSection,
    first: usize,
    value: u8,
    nested_or: bool,
) -> (r: Vec<RequirementVariant>)
    requires
        first + labels@.len() <= section_len(section),
    ensures
        variant_views(r@) == group_fan(
            variant_views(variants@),
            str_views(labels@),
            section_offset(section) + first,
            value,
            nested_or,
        ),
{
    let ghost vs = variant_views(variants@);
    let ghost names = str_views(labels@);
    let ghost offset = section_offset(section) + first;
    let mut out: Vec<RequirementVariant> = Vec::new();
    let mut i: usize = 0;
    assert(vs.take(0) =~= Seq::<VariantView>::empty());
    while i < variants.len()
        invariant
            i <= variants@.len(),
            first + labels@.len() <= section_len(section),
            vs == variant_views(variants@),
            names == str_views(labels@),
            offset == section_offset(section) + first,
            variant_views(out@) == group_fan(vs.take(i as int), names, offset, value, nested_or),
        decreases variants@.len() - i,
    {
        let ghost before = variant_views(out@);
        let ghost v = vs[i as int];
        assert(v == variants@[i as int]@);
        let mut j: usize = 0;
        while j < labels.len()
            invariant
                i < variants@.len(),
                j <= labels@.len(),
                first + labels@.len() <= section_len(section),
                vs == variant_views(variants@),
                names == str_views(labels@),
                offset == section_offset(section) + first,
                v == variants@[i as int]@,
                variant_views(out@) == before + group_choices(v, names, offset, value, nested_or).take(
                    j as int,
                ),
            decreases labels@.len() - j,
        {
            let label = labels[j];
            let mut next = variants[i].clone();
            raise_stat(&mut next.stats, section, first + j, value);
            push_requirement_note(&mut next.requirement_notes, nested_or, stat_note(label, value));
            let ghost labels_before = next.variant_labels@;
            next.variant_labels.push(String::from_str(label));
            proof {
                assert(string_views(next.variant_labels@) =~= string_views(labels_before).push(
                    label@,
                ));
                assert(names[j as int] == label@);
                assert(next@ == group_choice(v, names[j as int], offset + j, value, nested_or));
            }
            let ghost out_before = out@;
            out.push(next);
            proof {
                assert(variant_views(out@) =~= variant_views(out_before).push(next@));
                assert(group_choices(v, names, offset, value, nested_or).take(j + 1)
                    =~= group_choices(v, names, offset, value, nested_or).take(j as int).push(
                    next@,
                ));
            }
            j += 1;
        }
        proof {
            assert(group_choices(v, names, offset, value, nested_or).take(labels@.len() as int)
                =~= group_choices(v, names, offset, value, nested_or));
            assert(vs.take(i + 1).drop_last() =~= vs.take(i as int));
            assert(vs.take(i + 1).last() == v);
        }
        i += 1;
    }
    assert(vs.take(variants@.len() as int) =~= vs);
    out
}

/// Every variant after one stat requirement chip.
fn apply_stat_chip(variants: Vec<RequirementVariant>, label: &str, value: u8, nested_or: bool) -> (r:
    Vec<RequirementVariant>)
    ensures
        variant_views(r@) == stat_step(variant_views(variants@), label@, value, nested_or),
{
    if text_eq(label, "Weapon") {
        fan_out(variants, WEAPON_CHOICES.as_slice(), StatSection::Weapon, 0, value, nested_or)
    } else if text_eq(label, "Mind") {
        fan_out(variants, MIND_CHOICES.as_slice(), StatSection::Base, 3, value, nested_or)
    } else if text_eq(label, "Body") {
        fan_out(variants, BODY_CHOICES.as_slice(), StatSection::Base, 0, value, nested_or)
    } else if text_eq(label, "Attunement") {
        fan_out(variants, ATTUNEMENT_STATS.as_slice(), StatSection::Attunement, 0, value, nested_or)
    } else {
        chip_all(variants, label, value, nested_or)
    }
}

/// The variants after the stat chips of a requirements object, in order;
/// chips whose value is no byte are passed over.
pub open spec fn stats_phase(
    root: Seq<JsonValue>,
    stat_map: Seq<(String, JsonValue)>,
    vs: Seq<VariantView>,
    nested_or: bool,
) -> Seq<VariantView>
    decreases stat_map.len(),
{
    if stat_map.len() == 0 {
        vs
    } else {
        let prev = stats_phase(root, stat_map.drop_last(), vs, nested_or);
        match json_u8(root, stat_map.last().1) {
            Some(value) => stat_step(prev, stat_map.last().0@, value, nested_or),
            None => prev,
        }
    }
}

/// Every variant after the stat chips of a requirements object.
fn apply_stat_chips(
    root: &[JsonValue],
    stat_map: &Vec<(String, JsonValue)>,
    variants: Vec<RequirementVariant>,
    nested_or: bool,
) -> (r: Vec<RequirementVariant>)
    ensures
        variant_views(r@) == stats_phase(root@, stat_map@, variant_views(variants@), nested_or),
{
    let ghost vs = variant_views(variants@);
    let mut variants = variants;
    let mut i: usize = 0;
    assert(stat_map@.take(0) =~= Seq::<(String, JsonValue)>::empty());
    while i < stat_map.len()
        invariant
            i <= stat_map@.len(),
            variant_views(variants@) == stats_phase(root@, stat_map@.take(i as int), vs, nested_or),
        decreases stat_map@.len() - i,
    {
        let entry = &stat_map[i];
        assert(stat_map@.take(i + 1).drop_last() =~= stat_map@.take(i as int));
        assert(stat_map@.take(i + 1).last() == stat_map@[i as int]);
        match nuxt_u8(root, &entry.1) {
            Some(value) => {
                variants = apply_stat_chip(variants, entry.0.as_str(), value, nested_or);
            },
            None => {},
        }
        i += 1;
    }
    assert(stat_map@.take(stat_map@.len() as int) =~= stat_map@);
    variants
}

/// The note a text requirement adds: `Key: text`.
pub open spec fn text_note(root: Seq<JsonValue>, req: Seq<(String, JsonValue)>, key: Seq<char>) -> Option<
    Seq<char>,
> {
    match member(req, key) {
        Some(v) => match json_text(root, v) {
            Some(t) => Some(title_text(key) + ": "@ + t),
            None => None,
        },
        None => None,
    }
}

/// The texts of a list, given inline or by reference; entries that are no
/// text are passed over.
pub open spec fn resolved_texts(root: Seq<JsonValue>, items: Seq<JsonValue>) -> Seq<Seq<char>>
    decreases items.len(),
{
    if items.len() == 0 {
        Seq::empty()
    } else {
        let r = resolved_texts(root, items.drop_last());
        match json_text(root, items.last()) {
            Some(t) => r.push(t),
            None => r,
        }
    }
}

/// The note a list requirement adds: `Key: a, b, c`, when the list holds a
/// text.
pub open spec fn list_note(root: Seq<JsonValue>, req: Seq<(String, JsonValue)>, key: Seq<char>) -> Option<
    Seq<char>,
> {
    match member(req, key) {
        Some(v) => match json_array(root, v) {
            Some(items) => {
                let r = resolved_texts(root, items);
                if r.len() > 0 {
                    Some(title_text(key) + ": "@ + joined(r, ", "@))
                } else {
                    None
                }
            },
            None => None,
        },
        None => None,
    }
}

/// The notes of the text and list requirements, in the order they are added.
pub open spec fn requirement_notes(root: Seq<JsonValue>, req: Seq<(String, JsonValue)>) -> Seq<
    Option<Seq<char>>,
> {
    str_views(TEXT_KEYS@).map_values(|k: Seq<char>| text_note(root, req, k)) + str_views(
        LIST_KEYS@,
    ).map_values(|k: Seq<char>| list_note(root, req, k))
}

/// The variants with the given notes added to each, in order.
pub open spec fn note_phase(vs: Seq<VariantView>, notes: Seq<Option<Seq<char>>>, nested_or: bool) -> Seq<
    VariantView,
>
    decreases notes.len(),
{
    if notes.len() == 0 {
        vs
    } else {
        let prev = note_phase(vs, notes.drop_last(), nested_or);
        match notes.last() {
            Some(t) => prev.map_values(|v: VariantView| with_note(v, nested_or, t)),
            None => prev,
        }
    }
}

/// The variants a requirements object gives before its alternatives are
/// taken into account.
pub open spec fn listed_variants(
    root: Seq<JsonValue>,
    req: Seq<(String, JsonValue)>,
    base: VariantView,
    nested_or: bool,
) -> Seq<VariantView> {
    let start = seq![base];
    let after_stats = match member(req, "stats"@) {
        Some(sv) => match json_object(root, sv) {
            Some(m) => stats_phase(root, m, start, nested_or),
            None => start,
        },
        None => start,
    };
    note_phase(after_stats, requirement_notes(root, req), nested_or)
}

/// The note of a text requirement.
fn text_note_of(root: &[JsonValue], req: &Vec<(String, JsonValue)>, key: &str) -> (r: Option<String>)
    ensures
        option_view(r) == text_note(root@, req@, key@),
{
    match object_get(req, key) {
        Some(v) => match nuxt_string(root, v) {
            Some(t) => {
                let mut note = title_case(key);
                proof {
                    reveal_strlit(": ");
                }
                note.append(": ");
                note.append(t.as_str());
                Some(note)
            },
            None => None,
        },
        None => None,
    }
}

/// The texts of a list.
fn resolve_texts(root: &[JsonValue], items: &Vec<JsonValue>) -> (r: Vec<String>)
    ensures
        string_views(r@) == resolved_texts(root@, items@),
{
    let mut out: Vec<String> = Vec::new();
    let mut i: usize = 0;
    assert(items@.take(0) =~= Seq::<JsonValue>::empty());
    assert(string_views(out@) =~= Seq::<Seq<char>>::empty());
    while i < items.len()
        invariant
            i <= items@.len(),
            string_views(out@) == resolved_texts(root@, items@.take(i as int)),
        decreases items@.len() - i,
    {
        assert(items@.take(i + 1).drop_last() =~= items@.take(i as int));
        assert(items@.take(i + 1).last() == items@[i as int]);
        let ghost before = out@;
        match nuxt_string(root, &items[i]) {
            Some(t) => {
                out.push(t);
                assert(string_views(out@) =~= string_views(before).push(out@.last()@));
            },
            None => {},
        }
        i += 1;
    }
    assert(items@.take(items@.len() as int) =~= items@);
    out
}

/// The note of a list requirement.
fn list_note_of(root: &[JsonValue], req: &Vec<(String, JsonValue)>, key: &str) -> (r: Option<String>)
    ensures
        option_view(r) == list_note(root@, req@, key@),
{
    match object_get(req, key) {
        Some(v) => match nuxt_array(root, v) {
            Some(items) => {
                let resolved = resolve_texts(root, items);
                if resolved.len() > 0 {
                    let mut note = title_case(key);
                    proof {
                        reveal_strlit(": ");
                        reveal_strlit(", ");
                    }
                    note.append(": ");
                    let joined_items = join_texts(&resolved, ", ");
                    note.append(joined_items.as_str());
                    Some(note)
                } else {
                    None
                }
            },
            None => None,
        },
        None => None,
    }
}

/// The variants a requirements object gives before its alternatives.
fn listed_requirement_variants(
    root: &[JsonValue],
    requirements: &Vec<(String, JsonValue)>,
    base: RequirementVariant,
    nested_or: bool,
) -> (r: Vec<RequirementVariant>)
    ensures
        variant_views(r@) == listed_variants(root@, requirements@, base@, nested_or),
{
    let ghost start = seq![base@];
    let mut variants: Vec<RequirementVariant> = Vec::new();
    variants.push(base);
    assert(variant_views(variants@) =~= start);
    match object_get(requirements, "stats") {
        Some(sv) => match nuxt_object(root, sv) {
            Some(stat_map) => {
                variants = apply_stat_chips(root, stat_map, variants, nested_or);
            },
            None => {},
        },
        None => {},
    }
    let ghost after_stats = variant_views(variants@);
    let ghost notes = requirement_notes(root@, requirements@);
    let ghost text_keys = str_views(TEXT_KEYS@);
    let ghost list_keys = str_views(LIST_KEYS@);
    assert(notes.take(0) =~= Seq::<Option<Seq<char>>>::empty());
    let mut k: usize = 0;
    while k < 5
        invariant
            k <= 5,
            notes == requirement_notes(root@, requirements@),
            text_keys == str_views(TEXT_KEYS@),
            variant_views(variants@) == note_phase(after_stats, notes.take(k as int), nested_or),
        decreases 5 - k,
    {
        let key = TEXT_KEYS[k];
        let note = text_note_of(root, requirements, key);
        proof {
            assert(text_keys[k as int] == key@);
            assert(notes[k as int] == text_note(root@, requirements@, key@));
            assert(notes.take(k + 1).drop_last() =~= notes.take(k as int));
            assert(notes.take(k + 1).last() == notes[k as int]);
        }
        match note {
            Some(t) => {
                variants = note_all(variants, nested_or, t.as_str());
            },
            None => {},
        }
        k += 1;
    }
    let mut k: usize = 0;
    while k < 4
        invariant
            k <= 4,
            notes == requirement_notes(root@, requirements@),
            list_keys == str_views(LIST_KEYS@),
            variant_views(variants@) == note_phase(after_stats, notes.take(5 + k), nested_or),
        decreases 4 - k,
    {
        let key = LIST_KEYS[k];
        let note = list_note_of(root, requirements, key);
        proof {
            assert(list_keys[k as int] == key@);
            assert(notes[5 + k] == list_note(root@, requirements@, key@));
            assert(notes.take(5 + k + 1).drop_last() =~= notes.take(5 + k));
            assert(notes.take(5 + k + 1).last() == notes[5 + k]);
        }
        match note {
            Some(t) => {
                variants = note_all(variants, nested_or, t.as_str());
            },
            None => {},
        }
        k += 1;
    }
    assert(notes.take(9) =~= notes);
    variants
}

/// The variant that takes a text alternative: noted as an alternative and
/// labelled with the text.
pub open spec fn text_choice(v: VariantView, text: Seq<char>) -> VariantView {
    VariantView { stats: v.stats, notes: v.notes.push(note_text(true, text)), labels: v.labels.push(text) }
}

/// True when the alternatives of a requirements object, followed through
/// references into the payload, nest at most `fuel` deep.
pub open spec fn req_nesting_ends(root: Seq<JsonValue>, req: Seq<(String, JsonValue)>, fuel: nat) -> bool
    decreases fuel,
{
    match member(req, "or"@) {
        Some(ov) => match json_array(root, ov) {
            Some(options) => forall|j: int|
                0 <= j < options.len() ==> match json_object(root, #[trigger] options[j]) {
                    Some(m) => if fuel > 0 {
                        req_nesting_ends(root, m, (fuel - 1) as nat)
                    } else {
                        false
                    },
                    None => true,
                },
            None => true,
        },
        None => true,
    }
}

/// The variants a requirements object gives, when its alternatives nest at
/// most `fuel` deep: those its own requirements give; when it has a list of
/// alternatives, each of these is replaced by the variants its alternatives
/// give (so a list that gives none leaves no variant at all).
pub open spec fn expand_spec(
    root: Seq<JsonValue>,
    req: Seq<(String, JsonValue)>,
    base: VariantView,
    nested_or: bool,
    fuel: nat,
) -> Option<Seq<VariantView>>
    decreases fuel, 2nat, 0nat,
{
    let vs = listed_variants(root, req, base, nested_or);
    match member(req, "or"@) {
        Some(ov) => match json_array(root, ov) {
            Some(options) => alternatives(root, vs, options, fuel),
            None => Some(vs),
        },
        None => Some(vs),
    }
}

/// Every variant replaced, in order, by the variants its alternatives give.
pub open spec fn alternatives(
    root: Seq<JsonValue>,
    vs: Seq<VariantView>,
    options: Seq<JsonValue>,
    fuel: nat,
) -> Option<Seq<VariantView>>
    decreases fuel, 1nat, vs.len(),
{
    if vs.len() == 0 {
        Some(Seq::empty())
    } else {
        match alternatives(root, vs.drop_last(), options, fuel) {
            Some(a) => match option_variants(root, vs.last(), options, fuel) {
                Some(b) => Some(a + b),
                None => None,
            },
            None => None,
        }
    }
}

/// The variants one variant gives through a list of alternatives: a nested
/// requirements object gives its expansion, a text gives one variant, and
/// anything else gives none.
pub open spec fn option_variants(
    root: Seq<JsonValue>,
    v: VariantView,
    options: Seq<JsonValue>,
    fuel: nat,
) -> Option<Seq<VariantView>>
    decreases fuel, 0nat, options.len(),
{
    if options.len() == 0 {
        Some(Seq::empty())
    } else {
        match option_variants(root, v, options.drop_last(), fuel) {
            Some(a) => match json_object(root, options.last()) {
                Some(m) => if fuel == 0 {
                    None
                } else {
                    match expand_spec(root, m, v, true, (fuel - 1) as nat) {
                        Some(b) => Some(a + b),
                        None => None,
                    }
                },
                None => match json_text(root, options.last()) {
                    Some(t) => Some(a.push(text_choice(v, t))),
                    None => Some(a),
                },
            },
            None => None,
        }
    }
}

/// True when the alternatives of a requirements object nest finitely deep.
pub open spec fn nesting_ends(root: Seq<JsonValue>, req: Seq<(String, JsonValue)>) -> bool {
    exists|fuel: nat| req_nesting_ends(root, req, fuel)
}

/// A depth that the alternatives of a requirements object do not exceed.
pub open spec fn nesting_depth(root: Seq<JsonValue>, req: Seq<(String, JsonValue)>) -> nat {
    choose|fuel: nat| req_nesting_ends(root, req, fuel)
}

/// The variants a requirements object gives, starting from `base`.
pub open spec fn expanded_variants(
    root: Seq<JsonValue>,
    req: Seq<(String, JsonValue)>,
    base: VariantView,
    nested_or: bool,
) -> Seq<VariantView> {
    match expand_spec(root, req, base, nested_or, nesting_depth(root, req)) {
        Some(vs) => vs,
        None => Seq::empty(),
    }
}

/// The variants a requirements object gives, its alternatives nesting at
/// most `fuel` deep.
fn expand_with(
    root: &[JsonValue],
    requirements: &Vec<(String, JsonValue)>,
    base: RequirementVariant,
    nested_or: bool,
    Ghost(fuel): Ghost<nat>,
) -> (r: Vec<RequirementVariant>)
    requires
        req_nesting_ends(root@, requirements@, fuel),
    ensures
        expand_spec(root@, requirements@, base@, nested_or, fuel) == Some(variant_views(r@)),
    decreases fuel, 1nat,
{
    let variants = listed_requirement_variants(root, requirements, base, nested_or);
    match object_get(requirements, "or") {
        Some(ov) => match nuxt_array(root, ov) {
            Some(options) => {
                expand_alternatives(root, &variants, options, Ghost(fuel))
            },
            None => variants,
        },
        None => variants,
    }
}

/// Every variant replaced, in order, by the variants its alternatives give.
fn expand_alternatives(
    root: &[JsonValue],
    variants: &Vec<RequirementVariant>,
    options: &Vec<JsonValue>,
    Ghost(fuel): Ghost<nat>,
) -> (r: Vec<RequirementVariant>)
    requires
        forall|j: int|
            0 <= j < options@.len() ==> match json_object(root@, #[trigger] options@[j]) {
                Some(m) => if fuel > 0 {
                    req_nesting_ends(root@, m, (fuel - 1) as nat)
                } else {
                    false
                },
                None => true,
            },
    ensures
        alternatives(root@, variant_views(variants@), options@, fuel) == Some(variant_views(r@)),
    decreases fuel, 0nat,
{
    let ghost vs = variant_views(variants@);
    let mut expanded: Vec<RequirementVariant> = Vec::new();
    let mut i: usize = 0;
    assert(vs.take(0) =~= Seq::<VariantView>::empty());
    assert(variant_views(expanded@) =~= Seq::<VariantView>::empty());
    while i < variants.len()
        invariant
            i <= variants@.len(),
            vs == variant_views(variants@),
            forall|j: int|
                0 <= j < options@.len() ==> match json_object(root@, #[trigger] options@[j]) {
                    Some(m) => if fuel > 0 {
                        req_nesting_ends(root@, m, (fuel - 1) as nat)
                    } else {
                        false
                    },
                    None => true,
                },
            alternatives(root@, vs.take(i as int), options@, fuel) == Some(variant_views(expanded@)),
        decreases variants@.len() - i,
    {
        let ghost before = variant_views(expanded@);
        let ghost v = vs[i as int];
        assert(v == variants@[i as int]@);
        let ghost mut part: Seq<VariantView> = Seq::empty();
        assert(options@.take(0) =~= Seq::<JsonValue>::empty());
        let mut j: usize = 0;
        while j < options.len()
            invariant
                i < variants@.len(),
                j <= options@.len(),
                vs == variant_views(variants@),
                v == variants@[i as int]@,
                forall|j: int|
                    0 <= j < options@.len() ==> match json_object(root@, #[trigger] options@[j]) {
                        Some(m) => if fuel > 0 {
                            req_nesting_ends(root@, m, (fuel - 1) as nat)
                        } else {
                            false
                        },
                        None => true,
                    },
                option_variants(root@, v, options@.take(j as int), fuel) == Some(part),
                variant_views(expanded@) == before + part,
            decreases options@.len() - j,
        {
            let option = &options[j];
            proof {
                assert(options@.take(j + 1).drop_last() =~= options@.take(j as int));
                assert(options@.take(j + 1).last() == options@[j as int]);
            }
            match nuxt_object(root, option) {
                Some(nested) => {
                    assert(json_object(root@, options@[j as int]) == Some(nested@));
                    let mut sub = expand_with(
                        root,
                        nested,
                        variants[i].clone(),
                        true,
                        Ghost((fuel - 1) as nat),
                    );
                    let ghost sub_views = variant_views(sub@);
                    let ghost old_expanded = expanded@;
                    expanded.append(&mut sub);
                    proof {
                        assert(variant_views(expanded@) =~= variant_views(old_expanded) + sub_views);
                        part = part + sub_views;
                    }
                },
                None => match nuxt_string(root, option) {
                    Some(text) => {
                        let mut next = variants[i].clone();
                        push_requirement_note(&mut next.requirement_notes, true, text.clone());
                        let ghost labels_before = next.variant_labels@;
                        next.variant_labels.push(text);
                        proof {
                            assert(string_views(next.variant_labels@) =~= string_views(
                                labels_before,
                            ).push(next.variant_labels@.last()@));
                            assert(next@ == text_choice(v, next.variant_labels@.last()@));
                        }
                        let ghost old_expanded = expanded@;
                        expanded.push(next);
                        proof {
                            assert(variant_views(expanded@) =~= variant_views(old_expanded).push(
                                next@,
                            ));
                            part = part.push(next@);
                        }
                    },
                    None => {},
                },
            }
            j += 1;
        }
        proof {
            assert(options@.take(options@.len() as int) =~= options@);
            assert(vs.take(i + 1).drop_last() =~= vs.take(i as int));
            assert(vs.take(i + 1).last() == v);
        }
        i += 1;
    }
    assert(vs.take(variants@.len() as int) =~= vs);
    expanded
}

/// The variants a requirements object gives, starting from `base`: its stat
/// chips (grouped chips fan every variant out into one per stat of the
/// group), then its text and list notes, then its alternatives, each of which
/// gives its own variants (a list of alternatives that gives none leaves no
/// variant); notes are marked as alternatives when `nested_or`.
pub fn expand_requirement_variants(
    root: &[JsonValue],
    requirements: &Vec<(String, JsonValue)>,
    base: RequirementVariant,
    nested_or: bool,
) -> (r: Vec<RequirementVariant>)
    requires
        nesting_ends(root@, requirements@),
    ensures
        variant_views(r@) == expanded_variants(root@, requirements@, base@, nested_or),
{
    let ghost fuel = nesting_depth(root@, requirements@);
    expand_with(root, requirements, base, nested_or, Ghost(fuel))
}

/// True when the alternatives of a requirements object nest at most `fuel`
/// deep.
pub fn nesting_within(root: &[JsonValue], requirements: &Vec<(String, JsonValue)>, fuel: u64) -> (r:
    bool)
    ensures
        r == req_nesting_ends(root@, requirements@, fuel as nat),
    decreases fuel,
{
    let options = match object_get(requirements, "or") {
        Some(ov) => match nuxt_array(root, ov) {
            Some(options) => options,
            None => return true,
        },
        None => return true,
    };
    let mut j: usize = 0;
    while j < options.len()
        invariant
            j <= options@.len(),
            member(requirements@, "or"@) matches Some(ov) && json_array(root@, ov) == Some(
                options@,
            ),
            forall|k: int|
                0 <= k < j ==> match json_object(root@, #[trigger] options@[k]) {
                    Some(m) => if fuel > 0 {
                        req_nesting_ends(root@, m, (fuel - 1) as nat)
                    } else {
                        false
                    },
                    None => true,
                },
        decreases options@.len() - j,
    {
        match nuxt_object(root, &options[j]) {
            Some(nested) => {
                if fuel == 0 {
                    return false;
                }
                if !nesting_within(root, nested, fuel - 1) {
                    return false;
                }
            },
            None => {},
        }
        j += 1;
    }
    true
}

} // verus!
