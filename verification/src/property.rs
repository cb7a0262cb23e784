//! Property values, the per-path accumulator of decisions, the merge rule and
//! the normalization rules.

use crate::string_map::StringMap;
use crate::text::{is_number, is_number_str, same_text};
use vstd::prelude::*;

verus! {

/// What a scope says about one key.
#[derive(Debug, Clone, PartialEq, Eq)]
pub enum PropertyValue {
    /// The key has this value.
    Present(String),
    /// The key is removed: no farther scope may supply it.
    ExplicitlyUnset,
    /// The key is never mentioned.
    Absent,
}

/// The mathematical counterpart of `PropertyValue`.
pub enum Setting {
    Present(Seq<char>),
    ExplicitlyUnset,
    Absent,
}

impl View for PropertyValue {
    type V = Setting;

    /// The state, with the value as a sequence of characters.
    open spec fn view(&self) -> Setting {
        match self {
            PropertyValue::Present(s) => Setting::Present(s@),
            PropertyValue::ExplicitlyUnset => Setting::ExplicitlyUnset,
            PropertyValue::Absent => Setting::Absent,
        }
    }
}

impl PropertyValue {
    /// A copy of the value.
    pub fn duplicate(&self) -> (r: PropertyValue)
        ensures
            r@ == self@,
    {
        match self {
            PropertyValue::Present(s) => PropertyValue::Present(s.clone()),
            PropertyValue::ExplicitlyUnset => PropertyValue::ExplicitlyUnset,
            PropertyValue::Absent => PropertyValue::Absent,
        }
    }
}

/// A value that does not have the form its key asks for.
#[derive(Debug, Clone, PartialEq, Eq)]
pub struct InvalidPropertyValue {
    pub key: String,
    pub value: String,
}

/// Whether `value` has the form that `key` asks for: `indent_size` takes `tab`
/// or a number, `tab_width` a number, every other key anything.
pub open spec fn acceptable(key: Seq<char>, value: Seq<char>) -> bool {
    if key == "indent_size"@ {
        value == "tab"@ || is_number(value)
    } else if key == "tab_width"@ {
        is_number(value)
    } else {
        true
    }
}

/// What the text `value`, written for `key`, says: the reserved word `unset`
/// removes the key, a value of the wrong form counts as never written, and
/// any other value is the key's value.
pub open spec fn classified(key: Seq<char>, value: Seq<char>) -> Setting {
    if value == "unset"@ {
        Setting::ExplicitlyUnset
    } else if acceptable(key, value) {
        Setting::Present(value)
    } else {
        Setting::Absent
    }
}

/// Reads the text `value` written for `key`, a key in canonical form.
pub fn parse_value(key: &str, value: &str) -> (r: Result<PropertyValue, InvalidPropertyValue>)
    ensures
        match r {
            Ok(v) => v@ == classified(key@, value@) && !(v@ is Absent),
            Err(e) => classified(key@, value@) is Absent && e.key@ == key@ && e.value@ == value@,
        },
{
    if same_text(value, "unset") {
        return Ok(PropertyValue::ExplicitlyUnset);
    }
    let fits = if same_text(key, "indent_size") {
        same_text(value, "tab") || is_number_str(value)
    } else if same_text(key, "tab_width") {
        is_number_str(value)
    } else {
        true
    };
    if fits {
        Ok(PropertyValue::Present(value.to_owned()))
    } else {
        Err(InvalidPropertyValue { key: key.to_owned(), value: value.to_owned() })
    }
}

/// What `m` says about `key`.
pub open spec fn state_of(m: Map<Seq<char>, Setting>, key: Seq<char>) -> Setting {
    if m.contains_key(key) {
        m[key]
    } else {
        Setting::Absent
    }
}

/// `m` after `value` is written for `key`. Writing nothing changes nothing.
pub open spec fn recorded(m: Map<Seq<char>, Setting>, key: Seq<char>, value: Setting) -> Map<
    Seq<char>,
    Setting,
> {
    if value is Absent {
        m
    } else {
        m.insert(key, value)
    }
}

/// The decisions taken so far for one path, or the decisions that one section
/// holds: a key is `Present` with a value, `ExplicitlyUnset`, or not in the map.
#[derive(Debug)]
pub struct FileDefinition {
    map: StringMap<PropertyValue>,
}

impl View for FileDefinition {
    type V = Map<Seq<char>, Setting>;

    /// The decisions as a map from key to state; an open key is not in it.
    closed spec fn view(&self) -> Map<Seq<char>, Setting> {
        self.map@
    }
}

impl FileDefinition {
    /// Every key that is stored is decided: none is stored as `Absent`.
    #[verifier::type_invariant]
    pub closed spec fn well_formed(&self) -> bool {
        forall|k: Seq<char>| #[trigger] self.map@.contains_key(k) ==> !(self.map@[k] is Absent)
    }

    /// No stored decision is `Absent`.
    pub proof fn lemma_decided(&self)
        requires
            self.well_formed(),
        ensures
            forall|k: Seq<char>| #[trigger] self@.contains_key(k) ==> !(self@[k] is Absent),
    {
    }

    /// The definition that decides nothing.
    pub fn new() -> (r: FileDefinition)
        ensures
            r@ == Map::<Seq<char>, Setting>::empty(),
    {
        FileDefinition { map: StringMap::new() }
    }

    /// What the definition says about `key`.
    pub fn get(&self, key: &str) -> (r: PropertyValue)
        ensures
            r@ == state_of(self@, key@),
    {
        match self.map.get(key) {
            Some(v) => v.duplicate(),
            None => PropertyValue::Absent,
        }
    }

    /// Whether the definition decides `key`.
    pub fn decides(&self, key: &str) -> (r: bool)
        ensures
            r == self@.contains_key(key@),
    {
        self.map.contains_key(key)
    }

    /// Writes `value` for `key`, over whatever was written for it before.
    pub fn set(&mut self, key: &str, value: PropertyValue)
        ensures
            final(self)@ == recorded(old(self)@, key@, value@),
    {
        proof {
            use_type_invariant(&*self);
        }
        match value {
            PropertyValue::Absent => {},
            decided => {
                let mut map: StringMap<PropertyValue> = StringMap::new();
                std::mem::swap(&mut self.map, &mut map);
                map.insert(key.to_owned(), decided);
                self.map = map;
            },
        }
    }

    /// A copy of the definition.
    pub fn duplicate(&self) -> (r: FileDefinition)
        ensures
            r@ == self@,
    {
        merge(self, &FileDefinition::new())
    }

    /// The decisions as an ordered map, for walking through them.
    pub fn entries(&self) -> (map: &StringMap<PropertyValue>)
        ensures
            map@ == self@,
    {
        &self.map
    }
}

/// The merge rule: a key that `fst` decides keeps what `fst` says of it, and
/// only a key that `fst` leaves open takes what `snd` says.
pub open spec fn merged(fst: Map<Seq<char>, Setting>, snd: Map<Seq<char>, Setting>) -> Map<
    Seq<char>,
    Setting,
> {
    snd.union_prefer_right(fst)
}

/// Adds to `into` each entry of `from` whose key `into` does not hold yet.
fn add_open_keys(into: &mut StringMap<PropertyValue>, from: &StringMap<PropertyValue>)
    ensures
        final(into)@ == merged(old(into)@, from@),
{
    proof {
        use_type_invariant(from);
        from.lemma_order();
    }
    let mut i: usize = 0;
    while i < from.len()
        invariant
            i <= from.order().len(),
            from.order().len() == from.items().len(),
            forall|j: int|
                0 <= j < from.order().len() ==> from@.contains_key(#[trigger] from.order()[j])
                    && from@[from.order()[j]] == from.items()[j],
            forall|k: Seq<char>| #[trigger]
                from@.contains_key(k) ==> exists|j: int|
                    0 <= j < from.order().len() && #[trigger] from.order()[j] == k,
            forall|k: Seq<char>| #[trigger]
                into@.contains_key(k) <==> old(into)@.contains_key(k) || exists|j: int|
                    0 <= j < i && #[trigger] from.order()[j] == k,
            forall|k: Seq<char>| #[trigger]
                into@.contains_key(k) ==> into@[k] == merged(old(into)@, from@)[k],
        decreases from.order().len() - i,
    {
        let key = from.key_at(i);
        if !into.contains_key(key.as_str()) {
            into.insert(key.clone(), from.value_at(i).duplicate());
            assert forall|k: Seq<char>| #[trigger]
                into@.contains_key(k) <==> old(into)@.contains_key(k) || exists|j: int|
                    0 <= j < i + 1 && #[trigger] from.order()[j] == k by {
                if k == key@ {
                    assert(from.order()[i as int] == k);
                }
            }
        } else {
            assert forall|k: Seq<char>| #[trigger]
                into@.contains_key(k) <==> old(into)@.contains_key(k) || exists|j: int|
                    0 <= j < i + 1 && #[trigger] from.order()[j] == k by {
                if exists|j: int| 0 <= j < i + 1 && #[trigger] from.order()[j] == k {
                    let j = choose|j: int| 0 <= j < i + 1 && #[trigger] from.order()[j] == k;
                    if j == i {
                        assert(k == key@);
                    }
                }
            }
        }
        i += 1;
    }
    assert(into@ =~= merged(old(into)@, from@));
}

/// Folds the decisions of `snd` into those of `fst`: every key that `fst`
/// decides, as a value or as removed, stays as it is; every other key takes
/// the decision of `snd`, if it has one.
pub fn merge(fst: &FileDefinition, snd: &FileDefinition) -> (r: FileDefinition)
    ensures
        r@ == merged(fst@, snd@),
{
    proof {
        use_type_invariant(fst);
        use_type_invariant(snd);
    }
    let mut map: StringMap<PropertyValue> = StringMap::new();
    add_open_keys(&mut map, fst.entries());
    assert(map@ =~= fst@);
    add_open_keys(&mut map, snd.entries());
    FileDefinition { map }
}

/// Merging a section that is merged already changes nothing.
pub proof fn lemma_merge_idempotent(acc: Map<Seq<char>, Setting>, section: Map<Seq<char>, Setting>)
    ensures
        merged(merged(acc, section), section) == merged(acc, section),
{
    assert(merged(merged(acc, section), section) =~= merged(acc, section));
}

/// A merge never revisits a key that is decided, and decides every other key
/// as the section does.
pub proof fn lemma_merge_decides(
    acc: Map<Seq<char>, Setting>,
    section: Map<Seq<char>, Setting>,
    key: Seq<char>,
)
    ensures
        acc.contains_key(key) ==> state_of(merged(acc, section), key) == acc[key],
        !acc.contains_key(key) ==> state_of(merged(acc, section), key) == state_of(section, key),
{
}

/// First rule: indentation by tabs, with no size decided, has the size `tab`.
pub open spec fn default_indent_size(m: Map<Seq<char>, Setting>) -> Map<Seq<char>, Setting> {
    if state_of(m, "indent_style"@) == Setting::Present("tab"@) && state_of(m, "indent_size"@)
        is Absent {
        m.insert("indent_size"@, Setting::Present("tab"@))
    } else {
        m
    }
}

/// Second rule: a numeric indent size, with no tab width decided, is the tab
/// width too.
pub open spec fn default_tab_width(m: Map<Seq<char>, Setting>) -> Map<Seq<char>, Setting> {
    match state_of(m, "indent_size"@) {
        Setting::Present(size) => if size != "tab"@ && is_number(size) && state_of(
            m,
            "tab_width"@,
        ) is Absent {
            m.insert("tab_width"@, Setting::Present(size))
        } else {
            m
        },
        _ => m,
    }
}

/// Third rule: the indent size `tab`, with a numeric tab width, becomes that
/// width.
pub open spec fn indent_by_tab_width(m: Map<Seq<char>, Setting>) -> Map<Seq<char>, Setting> {
    match state_of(m, "tab_width"@) {
        Setting::Present(width) => if state_of(m, "indent_size"@) == Setting::Present("tab"@)
            && is_number(width) {
            m.insert("indent_size"@, Setting::Present(width))
        } else {
            m
        },
        _ => m,
    }
}

/// The three rules, each applied once, in their order; a later rule sees what
/// an earlier one wrote.
pub open spec fn normalized(m: Map<Seq<char>, Setting>) -> Map<Seq<char>, Setting> {
    indent_by_tab_width(default_tab_width(default_indent_size(m)))
}

/// The three keys that the rules read and write are three different keys.
pub proof fn lemma_rule_keys_differ()
    ensures
        "indent_style"@ != "indent_size"@,
        "indent_style"@ != "tab_width"@,
        "indent_size"@ != "tab_width"@,
{
    reveal_strlit("indent_style");
    reveal_strlit("indent_size");
    reveal_strlit("tab_width");
    assert("indent_style"@.len() == 12);
    assert("indent_size"@.len() == 11);
    assert("tab_width"@.len() == 9);
}

/// Indentation by tabs with no size decided gets the size `tab`, unless a
/// numeric tab width then takes its place.
pub proof fn lemma_tab_style_sets_indent_size(m: Map<Seq<char>, Setting>)
    requires
        state_of(m, "indent_style"@) == Setting::Present("tab"@),
        state_of(m, "indent_size"@) is Absent,
        !(state_of(m, "tab_width"@) matches Setting::Present(width) && is_number(width)),
    ensures
        state_of(normalized(m), "indent_size"@) == Setting::Present("tab"@),
{
    lemma_rule_keys_differ();
}

/// A numeric indent size with no tab width decided becomes the tab width.
pub proof fn lemma_indent_size_sets_tab_width(m: Map<Seq<char>, Setting>, size: Seq<char>)
    requires
        state_of(m, "indent_size"@) == Setting::Present(size),
        size != "tab"@,
        is_number(size),
        state_of(m, "tab_width"@) is Absent,
    ensures
        state_of(normalized(m), "tab_width"@) == Setting::Present(size),
        state_of(normalized(m), "indent_size"@) == Setting::Present(size),
{
    lemma_rule_keys_differ();
}

/// The indent size `tab` beside a numeric tab width becomes that width.
pub proof fn lemma_tab_width_replaces_tab(m: Map<Seq<char>, Setting>, width: Seq<char>)
    requires
        state_of(m, "indent_size"@) == Setting::Present("tab"@),
        state_of(m, "tab_width"@) == Setting::Present(width),
        is_number(width),
    ensures
        state_of(normalized(m), "indent_size"@) == Setting::Present(width),
        state_of(normalized(m), "tab_width"@) == Setting::Present(width),
{
    lemma_rule_keys_differ();
}

/// The rules never bring back a key that is removed.
pub proof fn lemma_normalized_keeps_unset(m: Map<Seq<char>, Setting>, key: Seq<char>)
    requires
        state_of(m, key) is ExplicitlyUnset,
    ensures
        state_of(normalized(m), key) is ExplicitlyUnset,
{
    lemma_rule_keys_differ();
}

/// Whether the third rule rewrites the indent size of `m`.
pub open spec fn tab_size_is_replaced(m: Map<Seq<char>, Setting>) -> bool {
    state_of(m, "indent_size"@) == Setting::Present("tab"@) && (state_of(m, "tab_width"@)
        matches Setting::Present(width) && is_number(width))
}

/// The rules change no value that is decided, but for the indent size `tab`
/// beside a numeric tab width.
pub proof fn lemma_normalized_keeps_value(
    m: Map<Seq<char>, Setting>,
    key: Seq<char>,
    value: Seq<char>,
)
    requires
        state_of(m, key) == Setting::Present(value),
        !(key == "indent_size"@ && tab_size_is_replaced(m)),
    ensures
        state_of(normalized(m), key) == Setting::Present(value),
{
    lemma_rule_keys_differ();
}

/// The rules add nothing to a definition that decides nothing.
pub proof fn lemma_normalized_empty()
    ensures
        normalized(Map::<Seq<char>, Setting>::empty()) == Map::<Seq<char>, Setting>::empty(),
        present_part(Map::<Seq<char>, Setting>::empty()) == Map::<Seq<char>, Seq<char>>::empty(),
{
    assert(present_part(Map::<Seq<char>, Setting>::empty()) =~= Map::<Seq<char>, Seq<char>>::empty());
}

/// Applies the derived-value rules to a finished merge.
pub fn normalize(definition: &FileDefinition) -> (r: FileDefinition)
    ensures
        r@ == normalized(definition@),
{
    let mut r = definition.duplicate();
    let style = r.get("indent_style");
    let size = r.get("indent_size");
    let by_tab = match style {
        PropertyValue::Present(v) => same_text(v.as_str(), "tab"),
        _ => false,
    };
    let no_size = match size {
        PropertyValue::Absent => true,
        _ => false,
    };
    if by_tab && no_size {
        r.set("indent_size", PropertyValue::Present("tab".to_owned()));
    }
    assert(r@ == default_indent_size(definition@));
    let width = r.get("tab_width");
    let no_width = match width {
        PropertyValue::Absent => true,
        _ => false,
    };
    match r.get("indent_size") {
        PropertyValue::Present(v) => {
            if !same_text(v.as_str(), "tab") && is_number_str(v.as_str()) && no_width {
                r.set("tab_width", PropertyValue::Present(v));
            }
        },
        _ => {},
    }
    assert(r@ == default_tab_width(default_indent_size(definition@)));
    let size_is_tab = match r.get("indent_size") {
        PropertyValue::Present(v) => same_text(v.as_str(), "tab"),
        _ => false,
    };
    match r.get("tab_width") {
        PropertyValue::Present(w) => {
            if size_is_tab && is_number_str(w.as_str()) {
                r.set("indent_size", PropertyValue::Present(w));
            }
        },
        _ => {},
    }
    r
}

/// The keys that have a value, each with its value.
pub open spec fn present_part(m: Map<Seq<char>, Setting>) -> Map<Seq<char>, Seq<char>> {
    Map::new(
        |k: Seq<char>| m.contains_key(k) && m[k] is Present,
        |k: Seq<char>|
            match m[k] {
                Setting::Present(v) => v,
                _ => Seq::empty(),
            },
    )
}

/// The final mapping for one path: lower-case key to value.
pub type ResolvedProperties = StringMap<String>;

/// What a definition resolves to: its keys that have a value. A key that is
/// removed is not in the result.
pub fn resolved_properties(definition: &FileDefinition) -> (r: ResolvedProperties)
    ensures
        r@ == present_part(definition@),
{
    let from = definition.entries();
    proof {
        use_type_invariant(from);
        from.lemma_order();
    }
    let mut r: StringMap<String> = StringMap::new();
    let mut i: usize = 0;
    while i < from.len()
        invariant
            i <= from.order().len(),
            from@ == definition@,
            from.order().len() == from.items().len(),
            forall|a: int, b: int|
                0 <= a < b < from.order().len() ==> (#[trigger] from.order()[a]) != (
                #[trigger] from.order()[b]),
            forall|j: int|
                0 <= j < from.order().len() ==> from@.contains_key(#[trigger] from.order()[j])
                    && from@[from.order()[j]] == from.items()[j],
            forall|k: Seq<char>| #[trigger]
                from@.contains_key(k) ==> exists|j: int|
                    0 <= j < from.order().len() && #[trigger] from.order()[j] == k,
            forall|k: Seq<char>| #[trigger]
                r@.contains_key(k) <==> present_part(definition@).contains_key(k) && exists|j: int|
                    0 <= j < i && #[trigger] from.order()[j] == k,
            forall|k: Seq<char>| #[trigger]
                r@.contains_key(k) ==> r@[k] == present_part(definition@)[k],
        decreases from.order().len() - i,
    {
        let key = from.key_at(i);
        match from.value_at(i) {
            PropertyValue::Present(v) => {
                r.insert(key.clone(), v.clone());
                assert forall|k: Seq<char>| #[trigger]
                    r@.contains_key(k) <==> present_part(definition@).contains_key(k)
                        && exists|j: int| 0 <= j < i + 1 && #[trigger] from.order()[j] == k by {
                    if k == key@ {
                        assert(from.order()[i as int] == k);
                    }
                }
            },
            _ => {
                assert forall|k: Seq<char>| #[trigger]
                    r@.contains_key(k) <==> present_part(definition@).contains_key(k)
                        && exists|j: int| 0 <= j < i + 1 && #[trigger] from.order()[j] == k by {
                    if present_part(definition@).contains_key(k) && exists|j: int|
                        0 <= j < i + 1 && #[trigger] from.order()[j] == k {
                        let j = choose|j: int| 0 <= j < i + 1 && #[trigger] from.order()[j] == k;
                        assert(j != i);
                    }
                }
            },
        }
        i += 1;
    }
    assert(r@ =~= present_part(definition@));
    r
}

} // verus!
