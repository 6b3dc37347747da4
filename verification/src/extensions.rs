//! The extension registry: installed extensions keyed by id, their
//! enabled/disabled state, and the state persisted across restarts.

use vstd::prelude::*;
use std::path::PathBuf;
use vstd::string::*;
use crate::blocking::{contains_string, option_view, string_views};
use crate::text::{
    has_substring, lemma_lex_le_total, lemma_lex_le_transitive, lex_le, lowercase, str_contains,
    str_lex_le, to_lowercase,
};

verus! {

/// The fields of an extension manifest that the registry reads.
pub struct Manifest {
    pub name: Option<String>,
    pub version: Option<String>,
    pub description: Option<String>,
}

/// One installed extension as the frontend sees it.
pub struct ExtensionInfo {
    pub id: String,
    pub name: String,
    pub version: String,
    pub description: String,
    pub enabled: bool,
    pub builtin: bool,
    pub load_error: Option<String>,
    /// Which native feature group the extension stands for: `ad-blocker`,
    /// `dark-reader`, `page-info`, `fed-gram` or `custom`.
    pub kind: String,
}

#[verifier::external_type_specification]
#[verifier::external_body]
pub struct ExPathBuf(std::path::PathBuf);

/// A registry entry: the extension and the folder it lives in.
pub struct RegistryEntry {
    pub info: ExtensionInfo,
    pub path: PathBuf,
}

/// The toggles of the two always-available native features.
pub struct ToggleState {
    pub adblock: bool,
    pub darkreader: bool,
}

/// The state persisted in `state.json`.
pub struct PersistedState {
    pub disabled: Vec<String>,
    pub adblock_enabled: bool,
    pub darkreader_enabled: bool,
}

impl ExtensionInfo {
    /// A copy of the record.
    pub fn duplicate(&self) -> (r: ExtensionInfo)
        ensures
            r == *self,
    {
        ExtensionInfo {
            id: self.id.clone(),
            name: self.name.clone(),
            version: self.version.clone(),
            description: self.description.clone(),
            enabled: self.enabled,
            builtin: self.builtin,
            load_error: match &self.load_error {
                Some(e) => Some(e.clone()),
                None => None,
            },
            kind: self.kind.clone(),
        }
    }
}

/// The kind of an extension, from its folder name and the name in its
/// manifest, both already in lowercase.
pub open spec fn kind_of_lowercase(i: Seq<char>, n: Seq<char>) -> Seq<char> {
    if has_substring(i, "ad-blocker"@) || has_substring(n, "ad block"@) {
        "ad-blocker"@
    } else if has_substring(i, "dark-reader"@) || has_substring(n, "dark reader"@) {
        "dark-reader"@
    } else if has_substring(i, "page-info"@) || has_substring(n, "page info"@) {
        "page-info"@
    } else if has_substring(i, "fed-gram"@) || has_substring(n, "fed-gram"@) || has_substring(
        n,
        "instagram"@,
    ) {
        "fed-gram"@
    } else {
        "custom"@
    }
}

/// The kind of an extension, guessed from its folder name and the name in its
/// manifest (nothing when it has none), both in lowercase.
pub open spec fn kind_for(id: Seq<char>, name: Option<Seq<char>>) -> Seq<char> {
    kind_of_lowercase(
        lowercase(id),
        lowercase(
            match name {
                Some(n) => n,
                None => ""@,
            },
        ),
    )
}

/// Guesses the native kind of an extension from its id and manifest, so the
/// frontend knows which native feature to wire up (see `kind_for`).
pub fn guess_kind(id: &str, manifest: &Manifest) -> (k: String)
    ensures
        k@ == kind_for(id@, option_view(manifest.name)),
{
    let name = match &manifest.name {
        Some(n) => to_lowercase(n.as_str()),
        None => to_lowercase(""),
    };
    let id_lower = to_lowercase(id);
    kind_from_lowercase(id_lower.as_str(), name.as_str())
}

/// The kind of an extension from its lowercase folder name and lowercase
/// manifest name (see `kind_of_lowercase`).
pub fn kind_from_lowercase(id_lower: &str, name_lower: &str) -> (k: String)
    ensures
        k@ == kind_of_lowercase(id_lower@, name_lower@),
{
    if str_contains(id_lower, "ad-blocker") || str_contains(name_lower, "ad block") {
        return String::from_str("ad-blocker");
    }
    if str_contains(id_lower, "dark-reader") || str_contains(name_lower, "dark reader") {
        return String::from_str("dark-reader");
    }
    if str_contains(id_lower, "page-info") || str_contains(name_lower, "page info") {
        return String::from_str("page-info");
    }
    if str_contains(id_lower, "fed-gram") || str_contains(name_lower, "fed-gram") || str_contains(
        name_lower,
        "instagram",
    ) {
        return String::from_str("fed-gram");
    }
    String::from_str("custom")
}

/// A string field of a manifest, or a fallback when the field is absent.
pub open spec fn field_or(field: Option<String>, fallback: Seq<char>) -> Seq<char> {
    match field {
        Some(s) => s@,
        None => fallback,
    }
}

/// The registry record of an extension found in folder `id`: the manifest's
/// name (or the folder name), version (or `1.0.0`) and description (or
/// nothing), enabled, without load error, with its guessed kind.
pub open spec fn info_from_manifest_spec(
    info: ExtensionInfo,
    id: Seq<char>,
    manifest: Manifest,
    builtin: bool,
) -> bool {
    &&& info.id@ == id
    &&& info.name@ == field_or(manifest.name, id)
    &&& info.version@ == field_or(manifest.version, "1.0.0"@)
    &&& info.description@ == field_or(manifest.description, ""@)
    &&& info.enabled
    &&& info.builtin == builtin
    &&& info.load_error is None
    &&& info.kind@ == kind_for(id, option_view(manifest.name))
}

fn field_or_exec(field: &Option<String>, fallback: &str) -> (r: String)
    ensures
        r@ == field_or(*field, fallback@),
{
    match field {
        Some(s) => s.clone(),
        None => String::from_str(fallback),
    }
}

/// The registry record of an extension found in folder `id` with this
/// manifest (see `info_from_manifest_spec`).
pub fn info_from_manifest(id: &str, manifest: &Manifest, builtin: bool) -> (info: ExtensionInfo)
    ensures
        info_from_manifest_spec(info, id@, *manifest, builtin),
{
    let kind = guess_kind(id, manifest);
    ExtensionInfo {
        id: String::from_str(id),
        name: field_or_exec(&manifest.name, id),
        version: field_or_exec(&manifest.version, "1.0.0"),
        description: field_or_exec(&manifest.description, ""),
        enabled: true,
        builtin,
        load_error: None,
        kind,
    }
}

/// The id of an entry.
pub open spec fn entry_id(e: RegistryEntry) -> Seq<char> {
    e.info.id@
}

/// Some entry of `s` has id `k`.
pub open spec fn has_id(s: Seq<RegistryEntry>, k: Seq<char>) -> bool {
    exists|i: int| 0 <= i < s.len() && entry_id(#[trigger] s[i]) == k
}

/// No two entries of `s` share an id.
pub open spec fn unique_ids(s: Seq<RegistryEntry>) -> bool {
    forall|i: int, j: int|
        0 <= i < s.len() && 0 <= j < s.len() && i != j ==> entry_id(#[trigger] s[i]) != entry_id(
            #[trigger] s[j],
        )
}

/// The entries of `s` keyed by id.
pub open spec fn entry_map(s: Seq<RegistryEntry>) -> Map<Seq<char>, RegistryEntry> {
    Map::new(
        |k: Seq<char>| has_id(s, k),
        |k: Seq<char>| s[choose|i: int| 0 <= i < s.len() && entry_id(s[i]) == k],
    )
}

/// In a sequence with distinct ids, each entry is what its id maps to.
proof fn lemma_entry_map_at(s: Seq<RegistryEntry>, i: int)
    requires
        unique_ids(s),
        0 <= i < s.len(),
    ensures
        entry_map(s).contains_key(entry_id(s[i])),
        entry_map(s)[entry_id(s[i])] == s[i],
{
    let k = entry_id(s[i]);
    assert(has_id(s, k));
    let j = choose|j: int| 0 <= j < s.len() && entry_id(s[j]) == k;
    assert(j == i);
}

/// Appending an entry with a new id adds it to the map.
proof fn lemma_entry_map_push(s: Seq<RegistryEntry>, e: RegistryEntry)
    requires
        unique_ids(s),
        !has_id(s, entry_id(e)),
    ensures
        unique_ids(s.push(e)),
        entry_map(s.push(e)) == entry_map(s).insert(entry_id(e), e),
{
    let t = s.push(e);
    assert forall|i: int, j: int|
        0 <= i < t.len() && 0 <= j < t.len() && i != j implies entry_id(#[trigger] t[i])
        != entry_id(#[trigger] t[j]) by {
        if i < s.len() && j < s.len() {
            assert(t[i] == s[i] && t[j] == s[j]);
        } else if i < s.len() {
            assert(t[i] == s[i]);
        } else if j < s.len() {
            assert(t[j] == s[j]);
        }
    }
    let m = entry_map(s).insert(entry_id(e), e);
    assert forall|k: Seq<char>| #[trigger] entry_map(t).contains_key(k) <==> m.contains_key(k) by {
        if has_id(t, k) {
            let i = choose|i: int| 0 <= i < t.len() && entry_id(t[i]) == k;
            if i < s.len() {
                assert(s[i] == t[i]);
                assert(has_id(s, k));
            }
        }
        if has_id(s, k) {
            let i = choose|i: int| 0 <= i < s.len() && entry_id(s[i]) == k;
            assert(t[i] == s[i]);
            assert(has_id(t, k));
        }
        if k == entry_id(e) {
            assert(t[s.len() as int] == e);
            assert(has_id(t, k));
        }
    }
    assert forall|k: Seq<char>| #[trigger] entry_map(t).contains_key(k) implies entry_map(t)[k]
        == m[k] by {
        let i = choose|i: int| 0 <= i < t.len() && entry_id(t[i]) == k;
        lemma_entry_map_at(t, i);
        if i < s.len() {
            assert(t[i] == s[i]);
            lemma_entry_map_at(s, i);
        }
    }
    assert(entry_map(t) =~= m);
}

/// Replacing the entry at `i` by one with the same id updates the map.
proof fn lemma_entry_map_update(s: Seq<RegistryEntry>, i: int, e: RegistryEntry)
    requires
        unique_ids(s),
        0 <= i < s.len(),
        entry_id(s[i]) == entry_id(e),
    ensures
        unique_ids(s.update(i, e)),
        entry_map(s.update(i, e)) == entry_map(s).insert(entry_id(e), e),
{
    let t = s.update(i, e);
    assert forall|a: int, b: int|
        0 <= a < t.len() && 0 <= b < t.len() && a != b implies entry_id(#[trigger] t[a])
        != entry_id(#[trigger] t[b]) by {
        assert(entry_id(t[a]) == entry_id(s[a]));
        assert(entry_id(t[b]) == entry_id(s[b]));
    }
    let m = entry_map(s).insert(entry_id(e), e);
    assert forall|k: Seq<char>| #[trigger] entry_map(t).contains_key(k) <==> m.contains_key(k) by {
        if has_id(t, k) {
            let a = choose|a: int| 0 <= a < t.len() && entry_id(t[a]) == k;
            assert(entry_id(s[a]) == k);
            assert(has_id(s, k));
        }
        if has_id(s, k) {
            let a = choose|a: int| 0 <= a < s.len() && entry_id(s[a]) == k;
            assert(entry_id(t[a]) == k);
            assert(has_id(t, k));
        }
        if k == entry_id(e) {
            assert(entry_id(t[i]) == k);
            assert(has_id(t, k));
        }
    }
    assert forall|k: Seq<char>| #[trigger] entry_map(t).contains_key(k) implies entry_map(t)[k]
        == m[k] by {
        let a = choose|a: int| 0 <= a < t.len() && entry_id(t[a]) == k;
        lemma_entry_map_at(t, a);
        if a != i {
            assert(t[a] == s[a]);
            lemma_entry_map_at(s, a);
        }
    }
    assert(entry_map(t) =~= m);
}

/// Removing the entry at `i` removes its id from the map.
proof fn lemma_entry_map_remove(s: Seq<RegistryEntry>, i: int)
    requires
        unique_ids(s),
        0 <= i < s.len(),
    ensures
        unique_ids(s.remove(i)),
        entry_map(s.remove(i)) == entry_map(s).remove(entry_id(s[i])),
{
    let t = s.remove(i);
    let old_index = |a: int| if a < i { a } else { a + 1 };
    assert forall|a: int| 0 <= a < t.len() implies #[trigger] t[a] == s[old_index(a)] by {}
    assert forall|a: int, b: int|
        0 <= a < t.len() && 0 <= b < t.len() && a != b implies entry_id(#[trigger] t[a])
        != entry_id(#[trigger] t[b]) by {
        assert(t[a] == s[old_index(a)]);
        assert(t[b] == s[old_index(b)]);
    }
    let m = entry_map(s).remove(entry_id(s[i]));
    assert forall|k: Seq<char>| #[trigger] entry_map(t).contains_key(k) <==> m.contains_key(k) by {
        if has_id(t, k) {
            let a = choose|a: int| 0 <= a < t.len() && entry_id(t[a]) == k;
            assert(t[a] == s[old_index(a)]);
            assert(has_id(s, k));
            assert(k != entry_id(s[i]));
        }
        if has_id(s, k) && k != entry_id(s[i]) {
            let a = choose|a: int| 0 <= a < s.len() && entry_id(s[a]) == k;
            assert(a != i);
            if a < i {
                assert(t[a] == s[a]);
                assert(has_id(t, k));
            } else {
                assert(t[a - 1] == s[a]);
                assert(has_id(t, k));
            }
        }
    }
    assert forall|k: Seq<char>| #[trigger] entry_map(t).contains_key(k) implies entry_map(t)[k]
        == m[k] by {
        let a = choose|a: int| 0 <= a < t.len() && entry_id(t[a]) == k;
        lemma_entry_map_at(t, a);
        assert(t[a] == s[old_index(a)]);
        lemma_entry_map_at(s, old_index(a));
    }
    assert(entry_map(t) =~= m);
}

/// The position of the entry with id `id` in `entries`, if any.
fn find_index(entries: &Vec<RegistryEntry>, id: &str) -> (r: Option<usize>)
    ensures
        match r {
            Some(i) => i < entries@.len() && entry_id(entries@[i as int]) == id@,
            None => !has_id(entries@, id@),
        },
{
    let key = String::from_str(id);
    let n = entries.len();
    for i in 0..n
        invariant
            n == entries@.len(),
            key@ == id@,
            forall|j: int| 0 <= j < i ==> entry_id(#[trigger] entries@[j]) != id@,
    {
        if entries[i].info.id == key {
            return Some(i);
        }
    }
    None
}

/// The registry of installed extensions, keyed by extension id.
pub struct ExtensionRegistry {
    entries: Vec<RegistryEntry>,
}

impl View for ExtensionRegistry {
    type V = Map<Seq<char>, RegistryEntry>;

    closed spec fn view(&self) -> Map<Seq<char>, RegistryEntry> {
        entry_map(self.entries@)
    }
}

impl ExtensionRegistry {
    #[verifier::type_invariant]
    spec fn ids_are_unique(self) -> bool {
        unique_ids(self.entries@)
    }

    /// Every entry is stored under its own id.
    pub proof fn lemma_keys_are_ids(&self, k: Seq<char>)
        requires
            self@.contains_key(k),
        ensures
            entry_id(self@[k]) == k,
    {
        let s = self.entries@;
        let i = choose|i: int| 0 <= i < s.len() && entry_id(s[i]) == k;
        assert(entry_map(s)[k] == s[i]);
    }

    /// The registry with no extensions.
    pub fn new() -> (r: ExtensionRegistry)
        ensures
            r@ == Map::<Seq<char>, RegistryEntry>::empty(),
    {
        let r = ExtensionRegistry { entries: Vec::new() };
        assert(r@ =~= Map::<Seq<char>, RegistryEntry>::empty());
        r
    }

    /// The position of the entry with id `id`, if any.
    fn find(&self, id: &str) -> (r: Option<usize>)
        ensures
            match r {
                Some(i) => i < self.entries@.len() && entry_id(self.entries@[i as int]) == id@,
                None => !has_id(self.entries@, id@),
            },
    {
        find_index(&self.entries, id)
    }

    /// Whether an extension with this id is registered.
    pub fn contains_id(&self, id: &str) -> (b: bool)
        ensures
            b == self@.contains_key(id@),
    {
        self.find(id).is_some()
    }

    /// The entry registered under `id`, if any.
    pub fn get(&self, id: &str) -> (r: Option<&RegistryEntry>)
        ensures
            r is Some <==> self@.contains_key(id@),
            r is Some ==> *r->0 == self@[id@],
    {
        proof {
            use_type_invariant(self);
        }
        match self.find(id) {
            Some(i) => {
                proof {
                    lemma_entry_map_at(self.entries@, i as int);
                }
                Some(&self.entries[i])
            },
            None => None,
        }
    }

    /// Registers `entry` under its id, replacing any entry with that id.
    pub fn insert_entry(&mut self, entry: RegistryEntry)
        ensures
            final(self)@ == old(self)@.insert(entry.info.id@, entry),
    {
        proof {
            use_type_invariant(&*self);
        }
        let mut entries: Vec<RegistryEntry> = Vec::new();
        std::mem::swap(&mut entries, &mut self.entries);
        let ghost s = entries@;
        match find_index(&entries, entry.info.id.as_str()) {
            Some(i) => {
                proof {
                    lemma_entry_map_update(s, i as int, entry);
                }
                entries.set(i, entry);
            },
            None => {
                proof {
                    lemma_entry_map_push(s, entry);
                }
                entries.push(entry);
            },
        }
        self.entries = entries;
    }
}

/// The ids of a list other than `id`, in order.
pub open spec fn without_id(ids: Seq<Seq<char>>, id: Seq<char>) -> Seq<Seq<char>> {
    ids.filter(other_than(id))
}

/// The test that an id differs from `id`.
pub open spec fn other_than(id: Seq<char>) -> spec_fn(Seq<char>) -> bool {
    |d: Seq<char>| d != id
}

/// The persisted list of disabled ids after an extension is enabled (every
/// occurrence of its id leaves) or disabled (its id is appended unless present).
pub open spec fn disabled_after(ids: Seq<Seq<char>>, id: Seq<char>, enabled: bool) -> Seq<
    Seq<char>,
> {
    if enabled {
        without_id(ids, id)
    } else if ids.contains(id) {
        ids
    } else {
        ids.push(id)
    }
}

/// `v` without the strings equal to `id`, as `Vec::retain(|d| d != id)`.
fn retain_other_ids(v: &Vec<String>, id: &String) -> (r: Vec<String>)
    ensures
        string_views(r@) == without_id(string_views(v@), id@),
{
    let mut r: Vec<String> = Vec::new();
    let n = v.len();
    let ghost pred = other_than(id@);
    assert(string_views(v@).take(0) =~= Seq::<Seq<char>>::empty());
    for i in 0..n
        invariant
            n == v@.len(),
            pred == other_than(id@),
            string_views(r@) == string_views(v@).take(i as int).filter(pred),
    {
        let ghost before = string_views(v@).take(i as int);
        assert(string_views(v@).take(i + 1) =~= before.push(v@[i as int]@));
        proof {
            before.lemma_filter_push(v@[i as int]@, pred);
        }
        if v[i] != *id {
            let ghost prev = r@;
            r.push(v[i].clone());
            assert(string_views(r@) =~= string_views(prev).push(v@[i as int]@));
        }
    }
    assert(string_views(v@).take(n as int) =~= string_views(v@));
    r
}

impl PersistedState {
    /// The ids of the disabled extensions.
    pub open spec fn disabled_ids(&self) -> Seq<Seq<char>> {
        string_views(self.disabled@)
    }

    /// Records that extension `id` is enabled or disabled (see `disabled_after`).
    pub fn record_enabled(&mut self, id: &str, enabled: bool)
        ensures
            final(self).disabled_ids() == disabled_after(old(self).disabled_ids(), id@, enabled),
            final(self).adblock_enabled == old(self).adblock_enabled,
            final(self).darkreader_enabled == old(self).darkreader_enabled,
    {
        let key = String::from_str(id);
        if enabled {
            self.disabled = retain_other_ids(&self.disabled, &key);
        } else if !contains_string(&self.disabled, &key) {
            let ghost prev = self.disabled@;
            self.disabled.push(key);
            assert(string_views(self.disabled@) =~= string_views(prev).push(id@));
        }
    }

    /// Forgets extension `id`: none of the disabled ids equals it any more.
    pub fn forget(&mut self, id: &str)
        ensures
            final(self).disabled_ids() == without_id(old(self).disabled_ids(), id@),
            final(self).adblock_enabled == old(self).adblock_enabled,
            final(self).darkreader_enabled == old(self).darkreader_enabled,
    {
        let key = String::from_str(id);
        self.disabled = retain_other_ids(&self.disabled, &key);
    }

    /// Records the two native toggles; the disabled ids stay as they are.
    pub fn save_toggles(&mut self, adblock: bool, darkreader: bool)
        ensures
            final(self).disabled_ids() == old(self).disabled_ids(),
            final(self).adblock_enabled == adblock,
            final(self).darkreader_enabled == darkreader,
    {
        self.adblock_enabled = adblock;
        self.darkreader_enabled = darkreader;
    }
}

impl Default for PersistedState {
    /// The state before anything was persisted: nothing disabled, both
    /// toggles off.
    fn default() -> (s: PersistedState)
        ensures
            s.disabled@.len() == 0,
            !s.adblock_enabled,
            !s.darkreader_enabled,
    {
        PersistedState { disabled: Vec::new(), adblock_enabled: false, darkreader_enabled: false }
    }
}

impl ToggleState {
    /// The toggles as persisted.
    pub fn from_persisted(state: &PersistedState) -> (t: ToggleState)
        ensures
            t.adblock == state.adblock_enabled,
            t.darkreader == state.darkreader_enabled,
    {
        ToggleState { adblock: state.adblock_enabled, darkreader: state.darkreader_enabled }
    }
}

/// The entry with its `enabled` flag set to `enabled`.
pub open spec fn with_enabled(e: RegistryEntry, enabled: bool) -> RegistryEntry {
    RegistryEntry { info: ExtensionInfo { enabled, ..e.info }, ..e }
}

/// The message of an operation on an id that is not registered.
pub open spec fn not_found_message(id: Seq<char>) -> Seq<char> {
    "Extension not found: "@ + id
}

fn not_found_error(id: &str) -> (e: String)
    ensures
        e@ == not_found_message(id@),
{
    String::from_str("Extension not found: ").concat(id)
}

impl ExtensionRegistry {
    /// Sets the `enabled` flag of the extension `id`; false when no such
    /// extension is registered, and then nothing changes.
    pub fn set_entry_enabled(&mut self, id: &str, enabled: bool) -> (found: bool)
        ensures
            found == old(self)@.contains_key(id@),
            found ==> final(self)@ == old(self)@.insert(id@, with_enabled(old(self)@[id@], enabled)),
            !found ==> final(self)@ == old(self)@,
    {
        proof {
            use_type_invariant(&*self);
        }
        match self.find(id) {
            Some(i) => {
                let mut entries: Vec<RegistryEntry> = Vec::new();
                std::mem::swap(&mut entries, &mut self.entries);
                let ghost s = entries@;
                let mut e = entries.remove(i);
                e.info.enabled = enabled;
                entries.insert(i, e);
                proof {
                    lemma_entry_map_at(s, i as int);
                    assert(entries@ =~= s.update(i as int, with_enabled(s[i as int], enabled)));
                    lemma_entry_map_update(s, i as int, with_enabled(s[i as int], enabled));
                }
                self.entries = entries;
                true
            },
            None => false,
        }
    }
}

/// Enables or disables extension `id` in the registry and records it in the
/// persisted state; an unknown id is an error and changes nothing.
pub fn set_enabled(
    reg: &mut ExtensionRegistry,
    state: &mut PersistedState,
    id: &str,
    enabled: bool,
) -> (r: Result<(), String>)
    ensures
        r is Ok <==> old(reg)@.contains_key(id@),
        r is Ok ==> final(reg)@ == old(reg)@.insert(id@, with_enabled(old(reg)@[id@], enabled)),
        r is Ok ==> final(state).disabled_ids() == disabled_after(
            old(state).disabled_ids(),
            id@,
            enabled,
        ),
        r is Err ==> final(reg)@ == old(reg)@ && final(state).disabled_ids() == old(
            state,
        ).disabled_ids() && r->Err_0@ == not_found_message(id@),
        final(state).adblock_enabled == old(state).adblock_enabled,
        final(state).darkreader_enabled == old(state).darkreader_enabled,
{
    if !reg.set_entry_enabled(id, enabled) {
        return Err(not_found_error(id));
    }
    state.record_enabled(id, enabled);
    Ok(())
}

/// The message of an attempt to remove a built-in extension.
pub open spec fn builtin_removal_message() -> Seq<char> {
    "Built-in extensions cannot be removed"@
}

impl ExtensionRegistry {
    /// Removes the entry of extension `id` and returns it.
    fn take_entry(&mut self, id: &str) -> (r: Option<RegistryEntry>)
        ensures
            r is Some <==> old(self)@.contains_key(id@),
            r is Some ==> r->0 == old(self)@[id@] && final(self)@ == old(self)@.remove(id@),
            r is None ==> final(self)@ == old(self)@,
    {
        proof {
            use_type_invariant(&*self);
        }
        let mut entries: Vec<RegistryEntry> = Vec::new();
        std::mem::swap(&mut entries, &mut self.entries);
        let ghost s = entries@;
        let r = match find_index(&entries, id) {
            Some(i) => {
                proof {
                    lemma_entry_map_at(s, i as int);
                    lemma_entry_map_remove(s, i as int);
                }
                Some(entries.remove(i))
            },
            None => None,
        };
        self.entries = entries;
        r
    }
}

/// Removes the user extension `id` from the registry and from the persisted
/// disabled ids, and returns the folder it lived in; an unknown id or a
/// built-in extension is an error and changes nothing.
pub fn remove_extension(reg: &mut ExtensionRegistry, state: &mut PersistedState, id: &str) -> (r:
    Result<PathBuf, String>)
    ensures
        !old(reg)@.contains_key(id@) ==> r is Err && r->Err_0@ == not_found_message(id@),
        old(reg)@.contains_key(id@) && old(reg)@[id@].info.builtin ==> r is Err && r->Err_0@
            == builtin_removal_message(),
        r is Err ==> final(reg)@ == old(reg)@ && final(state).disabled_ids() == old(
            state,
        ).disabled_ids(),
        old(reg)@.contains_key(id@) && !old(reg)@[id@].info.builtin ==> r is Ok,
        r is Ok ==> r->Ok_0 == old(reg)@[id@].path && final(reg)@ == old(reg)@.remove(id@)
            && final(state).disabled_ids() == without_id(old(state).disabled_ids(), id@),
        final(state).adblock_enabled == old(state).adblock_enabled,
        final(state).darkreader_enabled == old(state).darkreader_enabled,
{
    match reg.get(id) {
        None => {
            return Err(not_found_error(id));
        },
        Some(entry) => {
            if entry.info.builtin {
                return Err(String::from_str("Built-in extensions cannot be removed"));
            }
        },
    }
    match reg.take_entry(id) {
        Some(e) => {
            state.forget(id);
            Ok(e.path)
        },
        None => Err(not_found_error(id)),
    }
}

/// The registry after registering each discovered entry in turn, later ones
/// replacing earlier ones with the same id, each enabled unless its id is
/// among the disabled ids.
pub open spec fn register_all(
    m: Map<Seq<char>, RegistryEntry>,
    found: Seq<RegistryEntry>,
    disabled: Seq<Seq<char>>,
) -> Map<Seq<char>, RegistryEntry>
    decreases found.len(),
{
    if found.len() == 0 {
        m
    } else {
        let e = found.last();
        register_all(m, found.drop_last(), disabled).insert(
            entry_id(e),
            with_enabled(e, !disabled.contains(entry_id(e))),
        )
    }
}

/// The registry, and the number of entries added, after registering each
/// discovered entry whose id is not registered yet, enabled unless its id is
/// among the disabled ids; entries already registered stay as they are.
pub open spec fn register_new(
    m: Map<Seq<char>, RegistryEntry>,
    found: Seq<RegistryEntry>,
    disabled: Seq<Seq<char>>,
) -> (Map<Seq<char>, RegistryEntry>, nat)
    decreases found.len(),
{
    if found.len() == 0 {
        (m, 0)
    } else {
        let (m0, c0) = register_new(m, found.drop_last(), disabled);
        let e = found.last();
        if m0.contains_key(entry_id(e)) {
            (m0, c0)
        } else {
            (m0.insert(entry_id(e), with_enabled(e, !disabled.contains(entry_id(e)))), c0 + 1)
        }
    }
}

impl ExtensionRegistry {
    /// Registers each discovered entry in turn (see `register_all`).
    pub fn register_discovered(&mut self, found: Vec<RegistryEntry>, disabled: &Vec<String>)
        ensures
            final(self)@ == register_all(old(self)@, found@, string_views(disabled@)),
    {
        let ghost start = self@;
        let ghost dis = string_views(disabled@);
        for e in it: found
            invariant
                it.seq() == found@,
                dis == string_views(disabled@),
                self@ == register_all(start, it.seq().take(it.index() as int), dis),
        {
            let ghost done = it.seq().take(it.index() as int);
            let mut e = e;
            let is_disabled = contains_string(disabled, &e.info.id);
            e.info.enabled = !is_disabled;
            self.insert_entry(e);
            assert(it.seq().take(it.index() + 1).drop_last() =~= done);
        }
        assert(found@.take(found@.len() as int) =~= found@);
    }

    /// Registers each discovered entry whose id is not registered yet, and
    /// returns how many were added (see `register_new`).
    pub fn register_new_entries(&mut self, found: Vec<RegistryEntry>, disabled: &Vec<String>) -> (added: usize)
        ensures
            final(self)@ == register_new(old(self)@, found@, string_views(disabled@)).0,
            added == register_new(old(self)@, found@, string_views(disabled@)).1,
    {
        let ghost start = self@;
        let ghost dis = string_views(disabled@);
        let mut added: usize = 0;
        let n = found.len();
        for e in it: found
            invariant
                n == found@.len(),
                it.seq() == found@,
                dis == string_views(disabled@),
                self@ == register_new(start, it.seq().take(it.index() as int), dis).0,
                added == register_new(start, it.seq().take(it.index() as int), dis).1,
                added <= it.index(),
        {
            let ghost done = it.seq().take(it.index() as int);
            assert(it.seq().take(it.index() + 1).drop_last() =~= done);
            assert(it.index() < n);
            if !self.contains_id(e.info.id.as_str()) {
                let mut e = e;
                let is_disabled = contains_string(disabled, &e.info.id);
                e.info.enabled = !is_disabled;
                self.insert_entry(e);
                added = added + 1;
            }
        }
        assert(found@.take(found@.len() as int) =~= found@);
        added
    }

    /// Registers a user extension copied into folder `path` under the id
    /// `id`, with the fields of its manifest (see `info_from_manifest_spec`),
    /// replacing any entry with that id; returns its record.
    pub fn register_added(&mut self, id: &str, path: PathBuf, manifest: &Manifest) -> (info:
        ExtensionInfo)
        ensures
            info_from_manifest_spec(info, id@, *manifest, false),
            final(self)@ == old(self)@.insert(id@, RegistryEntry { info, path }),
    {
        let info = info_from_manifest(id, manifest, false);
        let entry = RegistryEntry { info: info.duplicate(), path };
        self.insert_entry(entry);
        info
    }
}

/// The registry at start-up: the built-in extensions, then the user
/// extensions (which replace built-in ones with the same id), each enabled
/// unless its id is among the persisted disabled ids.
pub fn init_registry(
    builtin: Vec<RegistryEntry>,
    user: Vec<RegistryEntry>,
    disabled: &Vec<String>,
) -> (r: ExtensionRegistry)
    ensures
        r@ == register_all(
            register_all(Map::empty(), builtin@, string_views(disabled@)),
            user@,
            string_views(disabled@),
        ),
{
    let mut r = ExtensionRegistry::new();
    r.register_discovered(builtin, disabled);
    r.register_discovered(user, disabled);
    r
}

/// The sort key of a listed extension: its name in lowercase.
pub open spec fn name_key(info: ExtensionInfo) -> Seq<char> {
    lowercase(info.name@)
}

/// Records sorted by lowercase name.
pub open spec fn sorted_by_name(v: Seq<ExtensionInfo>) -> bool {
    forall|i: int, j: int|
        0 <= i <= j < v.len() ==> lex_le(name_key(#[trigger] v[i]), name_key(#[trigger] v[j]))
}

/// The listing of a registry: each record is the record of the extension
/// registered under its id, every registered extension is listed once, and
/// the records are sorted by lowercase name.
pub open spec fn is_listing_of(v: Seq<ExtensionInfo>, m: Map<Seq<char>, RegistryEntry>) -> bool {
    &&& forall|i: int|
        0 <= i < v.len() ==> m.contains_key((#[trigger] v[i]).id@) && m[v[i].id@].info == v[i]
    &&& forall|k: Seq<char>| #[trigger] m.contains_key(k) ==> exists|i: int| 0 <= i < v.len() && (#[trigger] v[i]).id@ == k
    &&& forall|i: int, j: int| 0 <= i < v.len() && 0 <= j < v.len() && i != j ==> (#[trigger] v[i]).id@ != (#[trigger] v[j]).id@
    &&& sorted_by_name(v)
}

/// Records paired with their sort keys, sorted by key.
pub open spec fn sorted_by_key(v: Seq<(String, ExtensionInfo)>) -> bool {
    forall|i: int, j: int| 0 <= i <= j < v.len() ==> lex_le((#[trigger] v[i]).0@, (#[trigger] v[j]).0@)
}

/// Inserts `item` into the sorted `res` after every item whose key does not
/// come after its key.
fn insert_by_key(res: &mut Vec<(String, ExtensionInfo)>, item: (String, ExtensionInfo))
    requires
        sorted_by_key(old(res)@),
    ensures
        sorted_by_key(final(res)@),
        exists|p: int| 0 <= p <= old(res)@.len() && final(res)@ == old(res)@.insert(p, item),
{
    let n = res.len();
    let mut p: usize = 0;
    while p < n && str_lex_le(res[p].0.as_str(), item.0.as_str())
        invariant
            n == res@.len(),
            p <= n,
            forall|q: int| 0 <= q < p ==> lex_le((#[trigger] res@[q]).0@, item.0@),
        decreases n - p,
    {
        p = p + 1;
    }
    let ghost old_res = res@;
    let ghost key = item.0@;
    if p < n {
        proof {
            lemma_lex_le_total(key, old_res[p as int].0@);
        }
    }
    res.insert(p, item);
    assert forall|i: int, j: int|
        0 <= i <= j < res@.len() implies lex_le((#[trigger] res@[i]).0@, (#[trigger] res@[j]).0@) by {
        let ki = res@[i].0@;
        let kj = res@[j].0@;
        if i < p && j < p {
            assert(res@[i] == old_res[i] && res@[j] == old_res[j]);
        } else if i < p && j == p {
            assert(res@[i] == old_res[i]);
        } else if i < p {
            assert(res@[i] == old_res[i] && res@[j] == old_res[j - 1]);
            assert(lex_le(ki, key));
            assert(lex_le(old_res[p as int].0@, kj));
            lemma_lex_le_transitive(key, old_res[p as int].0@, kj);
            lemma_lex_le_transitive(ki, key, kj);
        } else if i == p && j == p {
            crate::text::lemma_lex_le_reflexive(key);
        } else if i == p {
            assert(res@[j] == old_res[j - 1]);
            assert(lex_le(old_res[p as int].0@, kj));
            lemma_lex_le_transitive(key, old_res[p as int].0@, kj);
        } else {
            assert(res@[i] == old_res[i - 1] && res@[j] == old_res[j - 1]);
        }
    }
}

/// Sorts records by their keys (stably, by insertion); the result holds the
/// same items.
pub fn sort_by_key(items: Vec<(String, ExtensionInfo)>) -> (r: Vec<(String, ExtensionInfo)>)
    ensures
        r@.to_multiset() == items@.to_multiset(),
        sorted_by_key(r@),
{
    let mut res: Vec<(String, ExtensionInfo)> = Vec::new();
    assert(res@ =~= items@.take(0));
    for item in it: items
        invariant
            it.seq() == items@,
            sorted_by_key(res@),
            res@.to_multiset() == it.seq().take(it.index() as int).to_multiset(),
    {
        let ghost before = res@;
        let ghost done = it.seq().take(it.index() as int);
        let ghost x = item;
        insert_by_key(&mut res, item);
        proof {
            let p = choose|p: int| 0 <= p <= before.len() && res@ == before.insert(p, x);
            vstd::seq_lib::to_multiset_insert(before, p, x);
            assert(it.seq().take(it.index() + 1) =~= done.push(x));
            done.to_multiset_ensures();
        }
    }
    assert(items@.take(items@.len() as int) =~= items@);
    res
}

/// The records of all registered extensions, sorted by lowercase name (see
/// `is_listing_of`).
pub fn list_info(reg: &ExtensionRegistry) -> (v: Vec<ExtensionInfo>)
    ensures
        is_listing_of(v@, reg@),
{
    proof {
        use_type_invariant(reg);
    }
    let entries = &reg.entries;
    let n = entries.len();
    let mut pairs: Vec<(String, ExtensionInfo)> = Vec::new();
    for idx in 0..n
        invariant
            n == entries@.len(),
            pairs@.len() == idx,
            forall|i: int| 0 <= i < idx ==> (#[trigger] pairs@[i]).1 == entries@[i].info
                && pairs@[i].0@ == name_key(pairs@[i].1),
    {
        let info = entries[idx].info.duplicate();
        let low = to_lowercase(info.name.as_str());
        pairs.push((low, info));
    }
    let ghost unsorted = pairs@;
    let sorted = sort_by_key(pairs);
    let mut res: Vec<ExtensionInfo> = Vec::new();
    let m = sorted.len();
    for i in 0..m
        invariant
            m == sorted@.len(),
            res@.len() == i,
            forall|k: int| 0 <= k < i ==> (#[trigger] res@[k]) == sorted@[k].1,
    {
        res.push(sorted[i].1.duplicate());
    }
    proof {
        lemma_listing(res@, sorted@, unsorted, entries@);
    }
    res
}

/// Sorted records taken from a permutation of the key pairs of entries with
/// distinct ids form a listing of their map.
proof fn lemma_listing(
    v: Seq<ExtensionInfo>,
    sorted: Seq<(String, ExtensionInfo)>,
    pairs: Seq<(String, ExtensionInfo)>,
    s: Seq<RegistryEntry>,
)
    requires
        unique_ids(s),
        pairs.len() == s.len(),
        forall|i: int| 0 <= i < s.len() ==> (#[trigger] pairs[i]).1 == s[i].info && pairs[i].0@
            == name_key(pairs[i].1),
        sorted.to_multiset() == pairs.to_multiset(),
        sorted_by_key(sorted),
        v.len() == sorted.len(),
        forall|k: int| 0 <= k < v.len() ==> (#[trigger] v[k]) == sorted[k].1,
    ensures
        is_listing_of(v, entry_map(s)),
{
    sorted.to_multiset_ensures();
    pairs.to_multiset_ensures();
    assert forall|i: int| 0 <= i < sorted.len() implies exists|j: int|
        0 <= j < pairs.len() && pairs[j] == #[trigger] sorted[i] by {
        assert(sorted.contains(sorted[i]));
        assert(sorted.to_multiset().count(sorted[i]) > 0);
        assert(pairs.contains(sorted[i]));
    }
    assert forall|i: int| 0 <= i < v.len() implies entry_map(s).contains_key((#[trigger] v[i]).id@)
        && entry_map(s)[v[i].id@].info == v[i] by {
        let j = choose|j: int| 0 <= j < pairs.len() && pairs[j] == sorted[i];
        lemma_entry_map_at(s, j);
    }
    assert forall|k: Seq<char>| #[trigger] entry_map(s).contains_key(k) implies exists|i: int|
        0 <= i < v.len() && (#[trigger] v[i]).id@ == k by {
        let j = choose|j: int| 0 <= j < s.len() && entry_id(s[j]) == k;
        assert(pairs.contains(pairs[j]));
        assert(sorted.to_multiset().count(pairs[j]) > 0);
        assert(sorted.contains(pairs[j]));
        let i = choose|i: int| 0 <= i < sorted.len() && sorted[i] == pairs[j];
        assert(v[i].id@ == k);
    }
    assert(pairs.no_duplicates()) by {
        assert forall|a: int, b: int| 0 <= a < pairs.len() && 0 <= b < pairs.len() && a != b implies pairs[a]
            != pairs[b] by {
            assert(entry_id(s[a]) != entry_id(s[b]));
        }
    }
    pairs.lemma_multiset_has_no_duplicates();
    sorted.lemma_multiset_has_no_duplicates_conv();
    assert forall|i: int, j: int| 0 <= i < v.len() && 0 <= j < v.len() && i != j implies (#[trigger] v[i]).id@
        != (#[trigger] v[j]).id@ by {
        if v[i].id@ == v[j].id@ {
            let a = choose|a: int| 0 <= a < pairs.len() && pairs[a] == sorted[i];
            let b = choose|b: int| 0 <= b < pairs.len() && pairs[b] == sorted[j];
            assert(entry_id(s[a]) == entry_id(s[b]));
            assert(a == b);
        }
    }
    assert forall|i: int, j: int| 0 <= i <= j < v.len() implies lex_le(name_key(#[trigger] v[i]), name_key(#[trigger] v[j])) by {
        let a = choose|a: int| 0 <= a < pairs.len() && pairs[a] == sorted[i];
        let b = choose|b: int| 0 <= b < pairs.len() && pairs[b] == sorted[j];
        assert(lex_le(sorted[i].0@, sorted[j].0@));
    }
}

/// Law: disabling an extension and enabling it again leaves none of the
/// persisted disabled ids equal to its id, and keeps every other id in order.
pub proof fn lemma_disable_then_enable(ids: Seq<Seq<char>>, id: Seq<char>)
    ensures
        disabled_after(disabled_after(ids, id, false), id, true) == without_id(ids, id),
        !without_id(ids, id).contains(id),
{
    let pred = other_than(id);
    if !ids.contains(id) {
        ids.lemma_filter_push(id, pred);
    }
    lemma_without_id_lacks_id(ids, id);
}

/// No id of `without_id(ids, id)` equals `id`.
proof fn lemma_without_id_lacks_id(ids: Seq<Seq<char>>, id: Seq<char>)
    ensures
        !without_id(ids, id).contains(id),
{
    let pred = other_than(id);
    let f = ids.filter(pred);
    if f.contains(id) {
        let i = choose|i: int| 0 <= i < f.len() && f[i] == id;
        ids.lemma_filter_pred(pred, i);
    }
}

/// Law: the persisted disabled ids never hold an id twice, if they did not
/// before.
pub proof fn lemma_disabled_ids_stay_distinct(ids: Seq<Seq<char>>, id: Seq<char>, enabled: bool)
    requires
        ids.no_duplicates(),
    ensures
        disabled_after(ids, id, enabled).no_duplicates(),
{
    if enabled {
        lemma_filter_keeps_distinct(ids, other_than(id));
    } else if !ids.contains(id) {
        let t = ids.push(id);
        assert forall|a: int, b: int| 0 <= a < t.len() && 0 <= b < t.len() && a != b implies t[a]
            != t[b] by {
            if a < ids.len() && b < ids.len() {
            } else if a < ids.len() {
                assert(ids.contains(t[a]));
            } else {
                assert(ids.contains(t[b]));
            }
        }
    }
}

/// Filtering a sequence without duplicates gives one without duplicates.
proof fn lemma_filter_keeps_distinct(s: Seq<Seq<char>>, pred: spec_fn(Seq<char>) -> bool)
    requires
        s.no_duplicates(),
    ensures
        s.filter(pred).no_duplicates(),
    decreases s.len(),
{
    if s.len() > 0 {
        let front = s.drop_last();
        assert(front.push(s.last()) =~= s);
        lemma_filter_keeps_distinct(front, pred);
        front.lemma_filter_push(s.last(), pred);
        if pred(s.last()) {
            let f = front.filter(pred);
            if f.contains(s.last()) {
                front.lemma_filter_contains_rev(pred, s.last());
                let j = choose|j: int| 0 <= j < front.len() && front[j] == s.last();
                assert(s[j] == s[s.len() - 1]);
            }
        }
    }
}

/// Law: registering at start-up enables exactly the extensions whose id is
/// not persisted as disabled, and stores each under its own id.
pub proof fn lemma_startup_flags(
    m: Map<Seq<char>, RegistryEntry>,
    found: Seq<RegistryEntry>,
    disabled: Seq<Seq<char>>,
    k: Seq<char>,
)
    requires
        forall|j: Seq<char>| #[trigger] m.contains_key(j) ==> entry_id(m[j]) == j && m[j].info.enabled
            == !disabled.contains(j),
        register_all(m, found, disabled).contains_key(k),
    ensures
        entry_id(register_all(m, found, disabled)[k]) == k,
        register_all(m, found, disabled)[k].info.enabled == !disabled.contains(k),
    decreases found.len(),
{
    if found.len() > 0 {
        let e = found.last();
        if k != entry_id(e) {
            lemma_startup_flags(m, found.drop_last(), disabled, k);
        }
    }
}

/// Law: re-scanning for new extensions leaves every registered extension as
/// it was, and registers each new id.
pub proof fn lemma_rescan_keeps_registered(
    m: Map<Seq<char>, RegistryEntry>,
    found: Seq<RegistryEntry>,
    disabled: Seq<Seq<char>>,
)
    ensures
        forall|k: Seq<char>| #[trigger] m.contains_key(k) ==> register_new(m, found, disabled).0.contains_key(k)
            && register_new(m, found, disabled).0[k] == m[k],
        forall|i: int| 0 <= i < found.len() ==> register_new(m, found, disabled).0.contains_key(
            entry_id(#[trigger] found[i]),
        ),
        forall|k: Seq<char>| #[trigger] register_new(m, found, disabled).0.contains_key(k) ==> m.contains_key(k)
            || exists|i: int| 0 <= i < found.len() && entry_id(#[trigger] found[i]) == k,
    decreases found.len(),
{
    if found.len() > 0 {
        let front = found.drop_last();
        lemma_rescan_keeps_registered(m, front, disabled);
        let r = register_new(m, found, disabled).0;
        assert forall|i: int| 0 <= i < found.len() implies r.contains_key(entry_id(#[trigger] found[i])) by {
            if i < front.len() {
                assert(front[i] == found[i]);
            }
        }
        assert forall|k: Seq<char>| #[trigger] r.contains_key(k) implies m.contains_key(k)
            || exists|i: int| 0 <= i < found.len() && entry_id(#[trigger] found[i]) == k by {
            let r0 = register_new(m, front, disabled).0;
            if r0.contains_key(k) && !m.contains_key(k) {
                let i = choose|i: int| 0 <= i < front.len() && entry_id(#[trigger] front[i]) == k;
                assert(found[i] == front[i]);
            }
            if !r0.contains_key(k) {
                assert(entry_id(found[found.len() - 1]) == k);
            }
        }
    }
}

/// Law: a removed extension is neither registered nor persisted as disabled.
pub proof fn lemma_removed_is_gone(
    m: Map<Seq<char>, RegistryEntry>,
    ids: Seq<Seq<char>>,
    id: Seq<char>,
)
    ensures
        !m.remove(id).contains_key(id),
        !without_id(ids, id).contains(id),
{
    lemma_without_id_lacks_id(ids, id);
}

/// Law: what is registered under an id is what a later lookup of that id
/// gives back, and the other ids keep their entries.
pub proof fn lemma_registered_entry_is_read_back(
    m: Map<Seq<char>, RegistryEntry>,
    e: RegistryEntry,
    other: Seq<char>,
)
    requires
        other != entry_id(e),
    ensures
        m.insert(entry_id(e), e).contains_key(entry_id(e)),
        m.insert(entry_id(e), e)[entry_id(e)] == e,
        m.insert(entry_id(e), e).contains_key(other) == m.contains_key(other),
        m.contains_key(other) ==> m.insert(entry_id(e), e)[other] == m[other],
{
}

/// Law: after an extension is enabled or disabled, the listing shows it once,
/// with that flag.
pub proof fn lemma_listing_shows_flag(
    v: Seq<ExtensionInfo>,
    m: Map<Seq<char>, RegistryEntry>,
    id: Seq<char>,
    enabled: bool,
)
    requires
        m.contains_key(id),
        is_listing_of(v, m.insert(id, with_enabled(m[id], enabled))),
    ensures
        exists|i: int| 0 <= i < v.len() && (#[trigger] v[i]).id@ == id && v[i].enabled == enabled,
{
    let m2 = m.insert(id, with_enabled(m[id], enabled));
    assert(m2.contains_key(id));
    let i = choose|i: int| 0 <= i < v.len() && (#[trigger] v[i]).id@ == id;
    assert(m2[v[i].id@].info == v[i]);
}

/// Every built-in entry of `after` was already a built-in entry of `before`.
pub open spec fn adds_no_builtin(
    after: Map<Seq<char>, RegistryEntry>,
    before: Map<Seq<char>, RegistryEntry>,
) -> bool {
    forall|k: Seq<char>|
        #[trigger] after.contains_key(k) && after[k].info.builtin ==> before.contains_key(k)
            && before[k].info.builtin
}

/// Re-scanning with entries that are not built-in adds no built-in entry.
proof fn lemma_rescan_adds_no_builtin(
    m: Map<Seq<char>, RegistryEntry>,
    found: Seq<RegistryEntry>,
    disabled: Seq<Seq<char>>,
)
    requires
        forall|i: int| 0 <= i < found.len() ==> !(#[trigger] found[i]).info.builtin,
    ensures
        adds_no_builtin(register_new(m, found, disabled).0, m),
    decreases found.len(),
{
    if found.len() > 0 {
        let front = found.drop_last();
        assert forall|i: int| 0 <= i < front.len() implies !(#[trigger] front[i]).info.builtin by {
            assert(front[i] == found[i]);
        }
        lemma_rescan_adds_no_builtin(m, front, disabled);
        assert(!found[found.len() - 1].info.builtin);
    }
}

/// Law: after start-up no operation adds a built-in extension: enabling or
/// disabling, adding a user extension (whose record is not built-in),
/// removing, and re-scanning for user extensions each keep the built-in
/// entries among those already registered; and the relation composes.
pub proof fn lemma_no_builtin_added_after_startup(
    m: Map<Seq<char>, RegistryEntry>,
    id: Seq<char>,
    enabled: bool,
    added: RegistryEntry,
    found: Seq<RegistryEntry>,
    disabled: Seq<Seq<char>>,
    earlier: Map<Seq<char>, RegistryEntry>,
)
    requires
        !added.info.builtin,
        forall|i: int| 0 <= i < found.len() ==> !(#[trigger] found[i]).info.builtin,
    ensures
        m.contains_key(id) ==> adds_no_builtin(m.insert(id, with_enabled(m[id], enabled)), m),
        adds_no_builtin(m.insert(entry_id(added), added), m),
        adds_no_builtin(m.remove(id), m),
        adds_no_builtin(register_new(m, found, disabled).0, m),
        adds_no_builtin(m, earlier) ==> forall|after: Map<Seq<char>, RegistryEntry>|
            #[trigger] adds_no_builtin(after, m) ==> adds_no_builtin(after, earlier),
{
    lemma_rescan_adds_no_builtin(m, found, disabled);
}

/// Law: a re-scan registers each new id enabled exactly when it is not among
/// the persisted disabled ids, whether the entry found for it is built-in or
/// not, and keeps the id, folder and built-in flag found for it.
pub proof fn lemma_rescan_enables_new(
    m: Map<Seq<char>, RegistryEntry>,
    found: Seq<RegistryEntry>,
    disabled: Seq<Seq<char>>,
    k: Seq<char>,
)
    requires
        register_new(m, found, disabled).0.contains_key(k),
        !m.contains_key(k),
    ensures
        register_new(m, found, disabled).0[k].info.enabled == !disabled.contains(k),
        register_new(m, found, disabled).0[k].info.id@ == k,
        exists|i: int|
            0 <= i < found.len() && (#[trigger] found[i]).info.id@ == k && register_new(
                m,
                found,
                disabled,
            ).0[k].path == found[i].path && register_new(m, found, disabled).0[k].info.builtin
                == found[i].info.builtin,
    decreases found.len(),
{
    let front = found.drop_last();
    let m0 = register_new(m, front, disabled).0;
    let e = found.last();
    if m0.contains_key(k) {
        lemma_rescan_enables_new(m, front, disabled, k);
        let i = choose|i: int|
            0 <= i < front.len() && (#[trigger] front[i]).info.id@ == k && m0[k].path == front[i].path
                && m0[k].info.builtin == front[i].info.builtin;
        assert(found[i] == front[i]);
    } else {
        assert(entry_id(e) == k);
        assert(found[found.len() - 1] == e);
    }
}

/// Law: the listing is ordered by name: for records at positions `i <= j`,
/// the lowercase name of the first comes before or equals that of the second
/// in code-point order, whatever their ids.
pub proof fn lemma_listing_is_ordered_by_name(v: Seq<ExtensionInfo>, m: Map<Seq<char>, RegistryEntry>)
    requires
        is_listing_of(v, m),
    ensures
        forall|i: int, j: int|
            0 <= i <= j < v.len() ==> lex_le(lowercase((#[trigger] v[i]).name@), lowercase((#[trigger] v[j]).name@)),
{
    assert forall|i: int, j: int| 0 <= i <= j < v.len() implies lex_le(
        lowercase((#[trigger] v[i]).name@),
        lowercase((#[trigger] v[j]).name@),
    ) by {
        assert(lex_le(name_key(v[i]), name_key(v[j])));
    }
}

/// Law: the kind follows the first marker found, in the order ad-blocker,
/// dark-reader, page-info, fed-gram, in the lowercase folder name `i` and
/// lowercase manifest name `n`; with no marker the kind is "custom".
pub proof fn lemma_kind_markers(i: Seq<char>, n: Seq<char>)
    ensures
        has_substring(i, "ad-blocker"@) || has_substring(n, "ad block"@) ==> kind_of_lowercase(i, n)
            == "ad-blocker"@,
        !has_substring(i, "ad-blocker"@) && !has_substring(n, "ad block"@) && (has_substring(
            i,
            "dark-reader"@,
        ) || has_substring(n, "dark reader"@)) ==> kind_of_lowercase(i, n) == "dark-reader"@,
        !has_substring(i, "ad-blocker"@) && !has_substring(n, "ad block"@) && !has_substring(
            i,
            "dark-reader"@,
        ) && !has_substring(n, "dark reader"@) && (has_substring(i, "page-info"@) || has_substring(
            n,
            "page info"@,
        )) ==> kind_of_lowercase(i, n) == "page-info"@,
        !has_substring(i, "ad-blocker"@) && !has_substring(n, "ad block"@) && !has_substring(
            i,
            "dark-reader"@,
        ) && !has_substring(n, "dark reader"@) && !has_substring(i, "page-info"@) && !has_substring(
            n,
            "page info"@,
        ) && (has_substring(i, "fed-gram"@) || has_substring(n, "fed-gram"@) || has_substring(
            n,
            "instagram"@,
        )) ==> kind_of_lowercase(i, n) == "fed-gram"@,
        !has_substring(i, "ad-blocker"@) && !has_substring(n, "ad block"@) && !has_substring(
            i,
            "dark-reader"@,
        ) && !has_substring(n, "dark reader"@) && !has_substring(i, "page-info"@) && !has_substring(
            n,
            "page info"@,
        ) && !has_substring(i, "fed-gram"@) && !has_substring(n, "fed-gram"@) && !has_substring(
            n,
            "instagram"@,
        ) ==> kind_of_lowercase(i, n) == "custom"@,
{
}

/// Law: a manifest name whose lowercase contains "fed-gram" or "instagram"
/// gives the kind "fed-gram" unless the lowercase id or name carries an
/// earlier marker.
pub proof fn lemma_fed_gram_by_name(id: Seq<char>, name: Seq<char>)
    requires
        has_substring(lowercase(name), "fed-gram"@) || has_substring(lowercase(name), "instagram"@),
        !has_substring(lowercase(id), "ad-blocker"@),
        !has_substring(lowercase(name), "ad block"@),
        !has_substring(lowercase(id), "dark-reader"@),
        !has_substring(lowercase(name), "dark reader"@),
        !has_substring(lowercase(id), "page-info"@),
        !has_substring(lowercase(name), "page info"@),
    ensures
        kind_for(id, Some(name)) == "fed-gram"@,
{
    lemma_kind_markers(lowercase(id), lowercase(name));
}

} // verus!
