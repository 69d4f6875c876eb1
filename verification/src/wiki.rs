use vstd::prelude::*;
use vstd::string::StringExecFns;

use crate::nuxt::{
    extract_nuxt_payload, json_bool, json_object, json_root, json_text, member, nuxt_bool,
    nuxt_object, nuxt_payload, nuxt_ref_index, nuxt_string, object_get, parse_json_root, ref_index,
    JsonValue,
};
use crate::stats::{zero_stats, StatBlock};
use crate::talent::{
    clone_texts, dedup_and_sort_talents, dedup_strings, first_occurrences, is_last_copy, last_of_key, option_view,
    talent_before, talent_views, Talent, TalentView,
};
use crate::text::{
    append_nat, join_texts, joined, lowercase, nat_text, string_views, text_less, to_lowercase,
};
use crate::variants::{
    empty_variant, expand_requirement_variants, expanded_variants, nesting_ends, nesting_within,
    req_nesting_ends, variant_views, RequirementVariant, VariantView,
};

verus! {

/// Why a payload without the talent state object is refused.
pub const MISSING_STATE: &'static str = "Nuxt payload missing talent state object.";

/// Why a payload without the talent list reference is refused.
pub const MISSING_LIST_REF: &'static str = "Nuxt payload missing wiki-list-talent reference.";

/// Why a payload whose talent list reference leads nowhere is refused.
pub const UNRESOLVED_LIST: &'static str = "Nuxt talent list reference did not resolve to an array.";

/// Why a payload whose requirement alternatives refer back to themselves is
/// refused.
pub const SELF_REFERRING: &'static str = "Nuxt talent requirements refer back to themselves.";

/// The rarity of a talent entry that names none.
pub const DEFAULT_RARITY: &'static str = "Common";

/// A talent with its stats as a sequence, as the payload describes it.
pub struct TalentModel {
    pub key: Seq<char>,
    pub name: Seq<char>,
    pub rarity: Seq<char>,
    pub stats: Seq<u8>,
    pub notes: Seq<Seq<char>>,
    pub label: Option<Seq<char>>,
}

/// The model of a talent.
pub open spec fn model_of(t: TalentView) -> TalentModel {
    TalentModel {
        key: t.key,
        name: t.name,
        rarity: t.rarity,
        stats: t.stats@,
        notes: t.requirement_notes,
        label: t.variant_label,
    }
}

/// The models of a sequence of talents.
pub open spec fn talent_models(s: Seq<Talent>) -> Seq<TalentModel> {
    s.map_values(|t: Talent| model_of(t@))
}

/// The talent list of a payload: the array that the `wiki-list-talent`
/// member of the state object (the fourth root entry) refers to.
pub open spec fn talent_list(root: Seq<JsonValue>) -> Result<Seq<JsonValue>, Seq<char>> {
    if root.len() <= 3 {
        Err(MISSING_STATE@)
    } else {
        match root[3] {
            JsonValue::Object(state) => match member(state@, "wiki-list-talent"@) {
                Some(list_ref) => match ref_index(list_ref) {
                    Some(i) => if i < root.len() {
                        match root[i as int] {
                            JsonValue::Array(list) => Ok(list@),
                            _ => Err(UNRESOLVED_LIST@),
                        }
                    } else {
                        Err(UNRESOLVED_LIST@)
                    },
                    None => Err(MISSING_LIST_REF@),
                },
                None => Err(MISSING_LIST_REF@),
            },
            _ => Err(MISSING_STATE@),
        }
    }
}

/// The index and members of the object a list entry refers to.
pub open spec fn entry_object(root: Seq<JsonValue>, entry_ref: JsonValue) -> Option<
    (usize, Seq<(String, JsonValue)>),
> {
    match ref_index(entry_ref) {
        Some(i) => if i < root.len() {
            match root[i as int] {
                JsonValue::Object(e) => Some((i, e@)),
                _ => None,
            }
        } else {
            None
        },
        None => None,
    }
}

/// A text member of an entry.
pub open spec fn entry_text(root: Seq<JsonValue>, e: Seq<(String, JsonValue)>, key: Seq<char>) -> Option<
    Seq<char>,
> {
    match member(e, key) {
        Some(v) => json_text(root, v),
        None => None,
    }
}

/// The rarity of an entry, `Common` when it names none.
pub open spec fn entry_rarity(root: Seq<JsonValue>, e: Seq<(String, JsonValue)>) -> Seq<char> {
    match entry_text(root, e, "rarity"@) {
        Some(r) => r,
        None => DEFAULT_RARITY@,
    }
}

/// True when an entry is marked `VOI`.
pub open spec fn entry_hidden(root: Seq<JsonValue>, e: Seq<(String, JsonValue)>) -> bool {
    match member(e, "VOI"@) {
        Some(v) => json_bool(root, v) == Some(true),
        None => false,
    }
}

/// The requirements object of an entry, if it has one.
pub open spec fn entry_requirements(root: Seq<JsonValue>, e: Seq<(String, JsonValue)>) -> Option<
    Seq<(String, JsonValue)>,
> {
    match member(e, "requirements"@) {
        Some(v) => json_object(root, v),
        None => None,
    }
}

/// The key of a talent: its lowercase name, `::`, and the index of its entry.
pub open spec fn talent_key(name: Seq<char>, index: nat) -> Seq<char> {
    lowercase(name) + "::"@ + nat_text(index)
}

/// The label of a variant: its alternatives joined with ` / `, if it took
/// any.
pub open spec fn variant_label(v: VariantView) -> Option<Seq<char>> {
    if v.labels.len() == 0 {
        None
    } else {
        Some(joined(v.labels, " / "@))
    }
}

/// The talent one variant of an entry gives.
pub open spec fn variant_talent(
    key: Seq<char>,
    name: Seq<char>,
    rarity: Seq<char>,
    v: VariantView,
) -> TalentModel {
    TalentModel {
        key: match variant_label(v) {
            Some(label) => lowercase(key + "::"@ + label),
            None => key,
        },
        name,
        rarity,
        stats: v.stats,
        notes: first_occurrences(v.notes),
        label: variant_label(v),
    }
}

/// The requirements object an entry is expanded from: that of a named entry
/// not marked `VOI`.
pub open spec fn expanded_requirements(root: Seq<JsonValue>, entry_ref: JsonValue) -> Option<
    Seq<(String, JsonValue)>,
> {
    match entry_object(root, entry_ref) {
        Some((i, e)) => if entry_text(root, e, "name"@) is Some && !entry_hidden(root, e) {
            entry_requirements(root, e)
        } else {
            None
        },
        None => None,
    }
}

/// The talents one list entry gives: none for an entry that refers to no
/// object, has no name or is marked `VOI`; one per requirement variant when
/// it has requirements; else one without requirements.
pub open spec fn entry_talents(root: Seq<JsonValue>, entry_ref: JsonValue) -> Seq<TalentModel> {
    match entry_object(root, entry_ref) {
        None => Seq::empty(),
        Some((i, e)) => match entry_text(root, e, "name"@) {
            None => Seq::empty(),
            Some(name) => if entry_hidden(root, e) {
                Seq::empty()
            } else {
                let key = talent_key(name, i as nat);
                let rarity = entry_rarity(root, e);
                match entry_requirements(root, e) {
                    Some(m) => expanded_variants(root, m, empty_variant(), false).map_values(
                        |v: VariantView| variant_talent(key, name, rarity, v),
                    ),
                    None => seq![
                        TalentModel {
                            key,
                            name,
                            rarity,
                            stats: zero_stats(),
                            notes: Seq::empty(),
                            label: None,
                        },
                    ],
                }
            },
        },
    }
}

/// The talents the entries of a list give, in order.
pub open spec fn collected_talents(root: Seq<JsonValue>, list: Seq<JsonValue>) -> Seq<TalentModel>
    decreases list.len(),
{
    if list.len() == 0 {
        Seq::empty()
    } else {
        collected_talents(root, list.drop_last()) + entry_talents(root, list.last())
    }
}

/// True when the alternatives of every requirements object the talent list
/// expands nest finitely deep.
pub open spec fn payload_nests_finitely(root: Seq<JsonValue>) -> bool {
    match talent_list(root) {
        Ok(list) => forall|j: int|
            0 <= j < list.len() ==> match expanded_requirements(root, #[trigger] list[j]) {
                Some(m) => nesting_ends(root, m),
                None => true,
            },
        Err(_) => true,
    }
}

/// The listing order of talents: by name, then by key.
pub open spec fn model_before(x: TalentModel, y: TalentModel) -> bool {
    text_less(x.name, y.name) || (x.name == y.name && text_less(x.key, y.key))
}

/// True when no later talent of `s` has the key of the one at `i`.
pub open spec fn model_last_of_key(s: Seq<TalentModel>, i: int) -> bool {
    0 <= i < s.len() && forall|j: int| i < j < s.len() ==> s[j].key != s[i].key
}

/// True when `x` is the last talent of `s` with its key.
pub open spec fn model_is_last_copy(s: Seq<TalentModel>, x: TalentModel) -> bool {
    exists|i: int| #![trigger s[i]] model_last_of_key(s, i) && s[i] == x
}

/// True when `r` holds, for every key of `s`, the last talent of `s` with
/// that key, and nothing else, listed by name and then by key.
pub open spec fn deduped_listing(r: Seq<TalentModel>, s: Seq<TalentModel>) -> bool {
    &&& forall|a: int, b: int|
        #![trigger r[a], r[b]]
        0 <= a < b < r.len() ==> model_before(r[a], r[b]) && r[a].key != r[b].key
    &&& forall|a: int| 0 <= a < r.len() ==> model_is_last_copy(s, #[trigger] r[a])
    &&& forall|i: int|
        model_last_of_key(s, i) ==> exists|a: int| 0 <= a < r.len() && #[trigger] r[a] == s[i]
}

/// Appends the talents one list entry gives.
fn collect_entry_talents(root: &[JsonValue], entry_ref: &JsonValue, talents: &mut Vec<Talent>)
    requires
        match expanded_requirements(root@, *entry_ref) {
            Some(m) => nesting_ends(root@, m),
            None => true,
        },
    ensures
        talent_models(final(talents)@) == talent_models(old(talents)@) + entry_talents(
            root@,
            *entry_ref,
        ),
{
    let ghost before = talent_models(talents@);
    assert(before + Seq::<TalentModel>::empty() =~= before);
    let entry_index = match nuxt_ref_index(entry_ref) {
        Some(i) => i,
        None => return ,
    };
    if entry_index >= root.len() {
        return ;
    }
    let entry = match &root[entry_index] {
        JsonValue::Object(e) => e,
        _ => return ,
    };
    let name = match object_get(entry, "name") {
        Some(v) => match nuxt_string(root, v) {
            Some(n) => n,
            None => return ,
        },
        None => return ,
    };
    let rarity = match object_get(entry, "rarity") {
        Some(v) => match nuxt_string(root, v) {
            Some(r) => r,
            None => String::from_str(DEFAULT_RARITY),
        },
        None => String::from_str(DEFAULT_RARITY),
    };
    let hidden = match object_get(entry, "VOI") {
        Some(v) => match nuxt_bool(root, v) {
            Some(b) => b,
            None => false,
        },
        None => false,
    };
    if hidden {
        return ;
    }
    let mut key = to_lowercase(name.as_str());
    proof {
        reveal_strlit("::");
        reveal_strlit(" / ");
    }
    key.append("::");
    append_nat(&mut key, entry_index as u64);
    let ghost e = entry@;
    assert(entry_object(root@, *entry_ref) == Some((entry_index, e)));
    assert(key@ == talent_key(name@, entry_index as nat));
    match object_get(entry, "requirements") {
        Some(v) => match nuxt_object(root, v) {
            Some(requirements) => {
                assert(entry_requirements(root@, e) == Some(requirements@));
                let variants = expand_requirement_variants(
                    root,
                    requirements,
                    RequirementVariant::default(),
                    false,
                );
                let ghost vv = variant_views(variants@);
                let ghost target = vv.map_values(
                    |w: VariantView| variant_talent(key@, name@, rarity@, w),
                );
                assert(target == entry_talents(root@, *entry_ref));
                let mut k: usize = 0;
                assert(before + target.take(0) =~= before);
                while k < variants.len()
                    invariant
                        k <= variants@.len(),
                        vv == variant_views(variants@),
                        target == vv.map_values(
                            |w: VariantView| variant_talent(key@, name@, rarity@, w),
                        ),
                        talent_models(talents@) == before + target.take(k as int),
                    decreases variants@.len() - k,
                {
                    let variant = &variants[k];
                    let ghost w = variant@;
                    assert(vv[k as int] == w);
                    let label: Option<String> = if variant.variant_labels.len() == 0 {
                        None
                    } else {
                        Some(join_texts(&variant.variant_labels, " / "))
                    };
                    let variant_key = match &label {
                        Some(l) => {
                            let mut full = key.clone();
                            full.append("::");
                            full.append(l.as_str());
                            to_lowercase(full.as_str())
                        },
                        None => key.clone(),
                    };
                    let notes = dedup_strings(clone_texts(&variant.requirement_notes));
                    let talent = Talent {
                        key: variant_key,
                        name: name.clone(),
                        rarity: rarity.clone(),
                        stats: variant.stats,
                        requirement_notes: notes,
                        variant_label: label,
                    };
                    proof {
                        assert(option_view(talent.variant_label) == variant_label(w));
                        assert(model_of(talent@) == target[k as int]);
                    }
                    let ghost old_talents = talents@;
                    talents.push(talent);
                    proof {
                        assert(talent_models(talents@) =~= talent_models(old_talents).push(
                            model_of(talent@),
                        ));
                        assert(target.take(k + 1) =~= target.take(k as int).push(target[k as int]));
                    }
                    k += 1;
                }
                assert(target.take(variants@.len() as int) =~= target);
            },
            None => {
                let talent = Talent {
                    key,
                    name,
                    rarity,
                    stats: StatBlock::default(),
                    requirement_notes: Vec::new(),
                    variant_label: None,
                };
                assert(string_views(talent.requirement_notes@) =~= Seq::<Seq<char>>::empty());
                talents.push(talent);
                assert(talent_models(talents@) =~= before + entry_talents(root@, *entry_ref));
            },
        },
        None => {
            let talent = Talent {
                key,
                name,
                rarity,
                stats: StatBlock::default(),
                requirement_notes: Vec::new(),
                variant_label: None,
            };
            assert(string_views(talent.requirement_notes@) =~= Seq::<Seq<char>>::empty());
            talents.push(talent);
            assert(talent_models(talents@) =~= before + entry_talents(root@, *entry_ref));
        },
    }
}

/// The talents of a wiki payload's root array: every entry of its talent
/// list gives its talents, and of these the last with each key is kept, the
/// whole listed by name and then by key. A payload without a talent list is
/// refused with the reason.
pub fn talents_from_nuxt_root(root: &[JsonValue]) -> (r: Result<Vec<Talent>, String>)
    requires
        payload_nests_finitely(root@),
    ensures
        match talent_list(root@) {
            Err(e) => r matches Err(msg) && msg@ == e,
            Ok(list) => r matches Ok(ts) && deduped_listing(
                talent_models(ts@),
                collected_talents(root@, list),
            ),
        },
{
    if root.len() <= 3 {
        return Err(String::from_str(MISSING_STATE));
    }
    let state = match &root[3] {
        JsonValue::Object(state) => state,
        _ => return Err(String::from_str(MISSING_STATE)),
    };
    let list_ref = match object_get(state, "wiki-list-talent") {
        Some(v) => match nuxt_ref_index(v) {
            Some(i) => i,
            None => return Err(String::from_str(MISSING_LIST_REF)),
        },
        None => return Err(String::from_str(MISSING_LIST_REF)),
    };
    if list_ref >= root.len() {
        return Err(String::from_str(UNRESOLVED_LIST));
    }
    let list = match &root[list_ref] {
        JsonValue::Array(list) => list,
        _ => return Err(String::from_str(UNRESOLVED_LIST)),
    };
    assert(talent_list(root@) == Ok::<Seq<JsonValue>, Seq<char>>(list@));
    let mut talents: Vec<Talent> = Vec::new();
    let mut k: usize = 0;
    assert(list@.take(0) =~= Seq::<JsonValue>::empty());
    assert(talent_models(talents@) =~= Seq::<TalentModel>::empty());
    while k < list.len()
        invariant
            k <= list@.len(),
            talent_list(root@) == Ok::<Seq<JsonValue>, Seq<char>>(list@),
            payload_nests_finitely(root@),
            talent_models(talents@) == collected_talents(root@, list@.take(k as int)),
        decreases list@.len() - k,
    {
        assert(list@.take(k + 1).drop_last() =~= list@.take(k as int));
        assert(list@.take(k + 1).last() == list@[k as int]);
        assert(match expanded_requirements(root@, list@[k as int]) {
            Some(m) => nesting_ends(root@, m),
            None => true,
        });
        collect_entry_talents(root, &list[k], &mut talents);
        k += 1;
    }
    assert(list@.take(list@.len() as int) =~= list@);
    let ghost s = talent_models(talents@);
    let ghost views = talent_views(talents@);
    let sorted = dedup_and_sort_talents(talents);
    proof {
        let r = talent_models(sorted@);
        let sv = talent_views(sorted@);
        assert forall|i: int| model_last_of_key(s, i) <==> last_of_key(views, i) by {
            if 0 <= i < s.len() {
                assert forall|j: int| i < j < s.len() implies (s[j].key == s[i].key <==> views[j].key
                    == views[i].key) by {
                    assert(s[j] == model_of(views[j]));
                    assert(s[i] == model_of(views[i]));
                }
            }
        }
        assert forall|a: int, b: int| #![trigger r[a], r[b]] 0 <= a < b < r.len() implies model_before(
            r[a],
            r[b],
        ) && r[a].key != r[b].key by {
            assert(r[a] == model_of(sv[a]));
            assert(r[b] == model_of(sv[b]));
            assert(talent_before(sv[a], sv[b]));
        }
        assert forall|a: int| 0 <= a < r.len() implies model_is_last_copy(s, #[trigger] r[a]) by {
            assert(r[a] == model_of(sv[a]));
            assert(is_last_copy(views, sv[a]));
            let i = choose|i: int| #![trigger views[i]] last_of_key(views, i) && views[i] == sv[a];
            assert(s[i] == model_of(views[i]));
            assert(model_last_of_key(s, i));
        }
        assert forall|i: int| model_last_of_key(s, i) implies exists|a: int|
            0 <= a < r.len() && #[trigger] r[a] == s[i] by {
            assert(last_of_key(views, i));
            let a = choose|a: int| 0 <= a < sv.len() && #[trigger] sv[a] == views[i];
            assert(r[a] == model_of(sv[a]));
            assert(s[i] == model_of(views[i]));
        }
        assert(deduped_listing(r, s));
    }
    Ok(sorted)
}

/// True when the alternatives of every requirements object the talent list
/// expands nest at most `fuel` deep.
pub open spec fn payload_nests_within(root: Seq<JsonValue>, fuel: nat) -> bool {
    match talent_list(root) {
        Ok(list) => forall|j: int|
            0 <= j < list.len() ==> match expanded_requirements(root, #[trigger] list[j]) {
                Some(m) => req_nesting_ends(root, m, fuel),
                None => true,
            },
        Err(_) => true,
    }
}

/// The requirements object a list entry is expanded from.
fn entry_requirements_of<'a>(root: &'a [JsonValue], entry_ref: &'a JsonValue) -> (r: Option<
    &'a Vec<(String, JsonValue)>,
>)
    ensures
        match expanded_requirements(root@, *entry_ref) {
            Some(m) => r matches Some(x) && x@ == m,
            None => r is None,
        },
{
    let entry_index = match nuxt_ref_index(entry_ref) {
        Some(i) => i,
        None => return None,
    };
    if entry_index >= root.len() {
        return None;
    }
    let entry = match &root[entry_index] {
        JsonValue::Object(e) => e,
        _ => return None,
    };
    let named = match object_get(entry, "name") {
        Some(v) => match nuxt_string(root, v) {
            Some(_) => true,
            None => false,
        },
        None => false,
    };
    if !named {
        return None;
    }
    let hidden = match object_get(entry, "VOI") {
        Some(v) => match nuxt_bool(root, v) {
            Some(b) => b,
            None => false,
        },
        None => false,
    };
    if hidden {
        return None;
    }
    match object_get(entry, "requirements") {
        Some(v) => nuxt_object(root, v),
        None => None,
    }
}

/// True when the alternatives of every requirements object the talent list
/// expands nest at most `fuel` deep; the talents of such a payload can be
/// read.
pub fn payload_nesting_within(root: &[JsonValue], fuel: u64) -> (r: bool)
    ensures
        r == payload_nests_within(root@, fuel as nat),
        r ==> payload_nests_finitely(root@),
{
    if root.len() <= 3 {
        return true;
    }
    let state = match &root[3] {
        JsonValue::Object(state) => state,
        _ => return true,
    };
    let list_ref = match object_get(state, "wiki-list-talent") {
        Some(v) => match nuxt_ref_index(v) {
            Some(i) => i,
            None => return true,
        },
        None => return true,
    };
    if list_ref >= root.len() {
        return true;
    }
    let list = match &root[list_ref] {
        JsonValue::Array(list) => list,
        _ => return true,
    };
    assert(talent_list(root@) == Ok::<Seq<JsonValue>, Seq<char>>(list@));
    let mut k: usize = 0;
    while k < list.len()
        invariant
            k <= list@.len(),
            talent_list(root@) == Ok::<Seq<JsonValue>, Seq<char>>(list@),
            forall|j: int|
                0 <= j < k ==> match expanded_requirements(root@, #[trigger] list@[j]) {
                    Some(m) => req_nesting_ends(root@, m, fuel as nat),
                    None => true,
                },
        decreases list@.len() - k,
    {
        match entry_requirements_of(root, &list[k]) {
            Some(requirements) => {
                if !nesting_within(root, requirements, fuel) {
                    return false;
                }
            },
            None => {},
        }
        k += 1;
    }
    assert forall|j: int| 0 <= j < list@.len() implies match expanded_requirements(
        root@,
        #[trigger] list@[j],
    ) {
        Some(m) => nesting_ends(root@, m),
        None => true,
    } by {
        if let Some(m) = expanded_requirements(root@, list@[j]) {
            assert(req_nesting_ends(root@, m, fuel as nat));
        }
    }
    true
}

/// The nesting depth a payload's alternatives are checked against: no
/// payload without a reference cycle nests deeper, since a chain of
/// references meets every root entry at most once and serde_json accepts at
/// most 128 nested arrays and objects within one entry.
pub open spec fn nesting_bound(root_len: nat) -> nat {
    if root_len < 0x1000_0000 {
        ((root_len + 1) * 64) as nat
    } else {
        u64::MAX as nat
    }
}

/// The talents of a wiki page: the Nuxt payload of the page, parsed as JSON,
/// refused when its requirement alternatives refer back to themselves, and
/// read as `talents_from_nuxt_root` reads it.
pub fn parse_talents_from_wiki_html(html: &str) -> (r: Result<Vec<Talent>, String>)
    ensures
        match nuxt_payload(html@) {
            Err(e) => r matches Err(msg) && msg@ == e,
            Ok(p) => match json_root(p) {
                None => r is Err,
                Some(root) => if !payload_nests_within(root, nesting_bound(root.len())) {
                    r matches Err(msg) && msg@ == SELF_REFERRING@
                } else {
                    match talent_list(root) {
                        Err(e) => r matches Err(msg) && msg@ == e,
                        Ok(list) => r matches Ok(ts) && deduped_listing(
                            talent_models(ts@),
                            collected_talents(root, list),
                        ),
                    }
                },
            },
        },
{
    let payload = match extract_nuxt_payload(html) {
        Ok(p) => p,
        Err(e) => return Err(e),
    };
    let root = match parse_json_root(payload) {
        Ok(root) => root,
        Err(e) => return Err(e),
    };
    let fuel: u64 = if root.len() < 0x1000_0000 {
        (root.len() as u64 + 1) * 64
    } else {
        u64::MAX
    };
    if !payload_nesting_within(root.as_slice(), fuel) {
        return Err(String::from_str(SELF_REFERRING));
    }
    talents_from_nuxt_root(root.as_slice())
}

} // verus!
