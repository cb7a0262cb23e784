//! Resolution of the properties of one path: the walk through the loaded
//! configuration files, the merge of their matching sections, and the
//! normalization of the outcome.

use crate::config::{
    config_of, ini_document, parse_config, ConfigFile, ConfigModel, ConfigParseError, SectionModel,
};
use crate::glob::{applies_to_path, matches_path};
use crate::paths::{relative_path, relative_to};
use crate::property::{
    merge, merged, normalize, normalized, present_part, resolved_properties, tab_size_is_replaced,
    FileDefinition, ResolvedProperties, Setting,
};
use crate::string_map::StringMap;
use crate::text::same_text;
use crate::walker::{ancestors, DirectoryWalker};
use vstd::prelude::*;

verus! {

/// `acc` after the sections are folded into it in file order: a section whose
/// pattern applies to `relative` is merged, any other is passed over.
pub open spec fn fold_sections(
    acc: Map<Seq<char>, Setting>,
    sections: Seq<SectionModel>,
    relative: Seq<char>,
) -> Map<Seq<char>, Setting>
    decreases sections.len(),
{
    if sections.len() == 0 {
        acc
    } else {
        let before = fold_sections(acc, sections.drop_last(), relative);
        if applies_to_path(sections.last().pattern, relative) {
            merged(before, sections.last().properties)
        } else {
            before
        }
    }
}

/// `acc` after one configuration file is folded into it for `target`. The
/// patterns are held against `target` as seen from the file's directory; a
/// file whose directory does not hold `target` adds nothing.
pub open spec fn fold_file(acc: Map<Seq<char>, Setting>, config: ConfigModel, target: Seq<char>) -> Map<
    Seq<char>,
    Setting,
> {
    match relative_to(config.directory, target) {
        Some(relative) => fold_sections(acc, config.sections, relative),
        None => acc,
    }
}

/// The models of a list of configuration files.
pub open spec fn config_models(configs: Seq<ConfigFile>) -> Seq<ConfigModel> {
    Seq::new(configs.len(), |i: int| configs[i]@)
}

/// The configuration file of `directory` among the loaded ones: the first
/// that names it.
pub open spec fn config_at(store: Seq<ConfigModel>, directory: Seq<char>) -> Option<ConfigModel>
    decreases store.len(),
{
    if store.len() == 0 {
        None
    } else if store[0].directory == directory {
        Some(store[0])
    } else {
        config_at(store.drop_first(), directory)
    }
}

/// `acc` after the directories are visited in their order. A directory with
/// no file adds nothing; a file that is the root ends the walk once it is
/// folded in.
pub open spec fn walk(
    acc: Map<Seq<char>, Setting>,
    directories: Seq<Seq<char>>,
    store: Seq<ConfigModel>,
    target: Seq<char>,
) -> Map<Seq<char>, Setting>
    decreases directories.len(),
{
    if directories.len() == 0 {
        acc
    } else {
        match config_at(store, directories[0]) {
            Some(config) => {
                let folded = fold_file(acc, config, target);
                if config.is_root {
                    folded
                } else {
                    walk(folded, directories.drop_first(), store, target)
                }
            },
            None => walk(acc, directories.drop_first(), store, target),
        }
    }
}

/// The decisions for `target` once its ancestors are walked, the nearest
/// first.
pub open spec fn merged_definition(target: Seq<char>, store: Seq<ConfigModel>) -> Map<
    Seq<char>,
    Setting,
> {
    walk(Map::empty(), ancestors(target), store, target)
}

/// The properties of `target`: the merged decisions, normalized once, with
/// the keys that have a value.
pub open spec fn resolved(target: Seq<char>, store: Seq<ConfigModel>) -> Map<Seq<char>, Seq<char>> {
    present_part(normalized(merged_definition(target, store)))
}

/// Folds one configuration file into the decisions taken so far for `target`.
pub fn merge_file(acc: &FileDefinition, config: &ConfigFile, target: &str) -> (r: FileDefinition)
    ensures
        r@ == fold_file(acc@, config@, target@),
{
    let mut r = acc.duplicate();
    match relative_path(config.directory().as_str(), target) {
        Some(relative) => {
            let sections = config.sections();
            let ghost models = config@.sections;
            let mut i: usize = 0;
            while i < sections.len()
                invariant
                    i <= sections.len(),
                    models.len() == sections@.len(),
                    forall|j: int| 0 <= j < sections@.len() ==> #[trigger] models[j] == sections@[j]@,
                    r@ == fold_sections(acc@, models.take(i as int), relative@),
                decreases sections.len() - i,
            {
                assert(models.take(i + 1).drop_last() == models.take(i as int));
                if matches_path(sections[i].pattern().as_str(), relative.as_str()) {
                    r = merge(&r, sections[i].properties());
                }
                i += 1;
            }
            assert(models.take(sections.len() as int) == models);
            r
        },
        None => r,
    }
}

/// Index of the first loaded file that names `directory`.
fn find_config(configs: &Vec<ConfigFile>, directory: &str) -> (r: Option<usize>)
    ensures
        match r {
            Some(i) => i < configs.len() && config_at(config_models(configs@), directory@) == Some(
                configs@[i as int]@,
            ),
            None => config_at(config_models(configs@), directory@) is None,
        },
{
    let ghost store = config_models(configs@);
    let mut i: usize = 0;
    assert(store.skip(0) =~= store);
    while i < configs.len()
        invariant
            i <= configs.len(),
            store == config_models(configs@),
            config_at(store, directory@) == config_at(store.skip(i as int), directory@),
        decreases configs.len() - i,
    {
        assert(store.skip(i as int)[0] == configs@[i as int]@);
        assert(store.skip(i as int).drop_first() == store.skip(i + 1));
        if same_text(configs[i].directory().as_str(), directory) {
            return Some(i);
        }
        i += 1;
    }
    None
}

/// Whether a configuration file is loaded for the directory `path`.
pub fn path_contains_editoconfig(path: &str, configs: &Vec<ConfigFile>) -> (r: bool)
    ensures
        r == config_at(config_models(configs@), path@) is Some,
{
    find_config(configs, path).is_some()
}

/// The resolution of one path, one directory at a time. The caller asks for
/// the next directory, looks for the configuration file there, and supplies
/// what it found; a root file ends the walk.
#[derive(Debug)]
pub struct Resolution {
    walker: DirectoryWalker,
    target: String,
    definition: FileDefinition,
}

impl Resolution {
    /// The path that is resolved.
    pub closed spec fn target(&self) -> Seq<char> {
        self.target@
    }

    /// The directories that are still to be visited, the next one first.
    pub closed spec fn pending(&self) -> Seq<Seq<char>> {
        self.walker.remaining()
    }

    /// The decisions taken so far.
    pub closed spec fn decided(&self) -> Map<Seq<char>, Setting> {
        self.definition@
    }

    /// A resolution that has decided nothing and has every ancestor of
    /// `target` before it.
    pub fn begin(target: &str) -> (r: Resolution)
        ensures
            r.target() == target@,
            r.pending() == ancestors(target@),
            r.decided() == Map::<Seq<char>, Setting>::empty(),
    {
        Resolution {
            walker: DirectoryWalker::new(target),
            target: target.to_owned(),
            definition: FileDefinition::new(),
        }
    }

    /// The next directory to look into, or `None` when the walk is over.
    pub fn next_directory(&mut self) -> (r: Option<String>)
        ensures
            final(self).target() == old(self).target(),
            final(self).decided() == old(self).decided(),
            match r {
                Some(directory) => old(self).pending().len() > 0 && directory@ == old(
                    self,
                ).pending()[0] && final(self).pending() == old(self).pending().drop_first(),
                None => old(self).pending().len() == 0 && final(self).pending().len() == 0,
            },
    {
        self.walker.next_directory()
    }

    /// Folds in the configuration file found in the directory that was handed
    /// out last. A root file leaves nothing to visit.
    pub fn supply(&mut self, config: &ConfigFile)
        ensures
            final(self).target() == old(self).target(),
            final(self).decided() == fold_file(old(self).decided(), config@, old(self).target()),
            final(self).pending() == (if config@.is_root {
                Seq::<Seq<char>>::empty()
            } else {
                old(self).pending()
            }),
    {
        self.definition = merge_file(&self.definition, config, self.target.as_str());
        if config.is_root() {
            self.walker.halt();
            assert(self.walker.remaining() =~= Seq::<Seq<char>>::empty());
        }
    }

    /// Reads the text of the configuration file found in `directory` and
    /// folds it in. A text that the raw parser rejects changes nothing: the
    /// error is handed back and the walk goes on.
    pub fn supply_text(&mut self, directory: &str, text: &str) -> (r: Result<(), ConfigParseError>)
        ensures
            final(self).target() == old(self).target(),
            match r {
                Ok(_) => ini_document(text@) matches Some(document) && final(self).decided()
                    == fold_file(
                    old(self).decided(),
                    config_of(directory@, document),
                    old(self).target(),
                ) && final(self).pending() == (if config_of(directory@, document).is_root {
                    Seq::<Seq<char>>::empty()
                } else {
                    old(self).pending()
                }),
                Err(_) => ini_document(text@) is None && final(self).decided() == old(
                    self,
                ).decided() && final(self).pending() == old(self).pending(),
            },
    {
        match parse_config(directory, text) {
            Ok(config) => {
                self.supply(&config);
                Ok(())
            },
            Err(e) => Err(e),
        }
    }

    /// The decisions taken so far, as they stand.
    pub fn definition(&self) -> (r: &FileDefinition)
        ensures
            r@ == self.decided(),
    {
        &self.definition
    }

    /// Ends the resolution: the decisions are normalized once and the keys
    /// that have a value are handed out.
    pub fn finish(self) -> (r: ResolvedProperties)
        ensures
            r@ == present_part(normalized(self.decided())),
    {
        let normal = normalize(&self.definition);
        resolved_properties(&normal)
    }
}

/// Resolves the properties of `filepath` from the loaded configuration files:
/// its ancestor directories are visited nearest first, each file found is
/// folded in, a root file ends the walk, and the outcome is normalized.
pub fn get_editorconfig_for_file(filepath: &str, configs: &Vec<ConfigFile>) -> (r:
    ResolvedProperties)
    ensures
        r@ == resolved(filepath@, config_models(configs@)),
{
    let ghost store = config_models(configs@);
    let mut resolution = Resolution::begin(filepath);
    loop
        invariant
            store == config_models(configs@),
            resolution.target() == filepath@,
            merged_definition(filepath@, store) == walk(
                resolution.decided(),
                resolution.pending(),
                store,
                filepath@,
            ),
        decreases resolution.pending().len(),
    {
        match resolution.next_directory() {
            Some(directory) => {
                match find_config(configs, directory.as_str()) {
                    Some(i) => {
                        resolution.supply(&configs[i]);
                    },
                    None => {},
                }
            },
            None => {
                return resolution.finish();
            },
        }
    }
}

/// The resolved properties of a batch of paths, keyed by path.
pub type Definitions = StringMap<ResolvedProperties>;

/// Resolves every path of the batch. Each path owns its key; a path that
/// occurs twice is resolved to the same properties both times.
pub fn get_definitions(paths: Vec<String>, configs: &Vec<ConfigFile>) -> (r: Definitions)
    ensures
        forall|k: Seq<char>| #[trigger]
            r@.contains_key(k) <==> exists|i: int| 0 <= i < paths@.len() && (#[trigger] paths@[i])@ == k,
        forall|k: Seq<char>| #[trigger]
            r@.contains_key(k) ==> r@[k] == resolved(k, config_models(configs@)),
{
    let mut r: Definitions = StringMap::new();
    let mut i: usize = 0;
    while i < paths.len()
        invariant
            i <= paths.len(),
            forall|k: Seq<char>| #[trigger]
                r@.contains_key(k) <==> exists|j: int| 0 <= j < i && (#[trigger] paths@[j])@ == k,
            forall|k: Seq<char>| #[trigger]
                r@.contains_key(k) ==> r@[k] == resolved(k, config_models(configs@)),
        decreases paths.len() - i,
    {
        let properties = get_editorconfig_for_file(paths[i].as_str(), configs);
        r.insert(paths[i].clone(), properties);
        assert forall|k: Seq<char>| #[trigger]
            r@.contains_key(k) <==> exists|j: int| 0 <= j < i + 1 && (#[trigger] paths@[j])@ == k by {
            if k == paths@[i as int]@ {
            }
            if exists|j: int| 0 <= j < i + 1 && (#[trigger] paths@[j])@ == k {
                let j = choose|j: int| 0 <= j < i + 1 && (#[trigger] paths@[j])@ == k;
                if j < i {
                }
            }
        }
        i += 1;
    }
    r
}

/// What one configuration file decides for `target` on its own.
pub open spec fn contribution(config: ConfigModel, target: Seq<char>) -> Map<Seq<char>, Setting> {
    fold_file(Map::empty(), config, target)
}

/// Folding sections into decisions is merging what the sections decide on
/// their own.
pub proof fn lemma_fold_sections_is_merge(
    acc: Map<Seq<char>, Setting>,
    sections: Seq<SectionModel>,
    relative: Seq<char>,
)
    ensures
        fold_sections(acc, sections, relative) == merged(
            acc,
            fold_sections(Map::empty(), sections, relative),
        ),
    decreases sections.len(),
{
    let alone = fold_sections(Map::empty(), sections, relative);
    if sections.len() > 0 {
        lemma_fold_sections_is_merge(acc, sections.drop_last(), relative);
    }
    assert(fold_sections(acc, sections, relative) =~= merged(acc, alone));
}

/// Folding a file into decisions is merging the file's own contribution.
pub proof fn lemma_fold_file_is_merge(
    acc: Map<Seq<char>, Setting>,
    config: ConfigModel,
    target: Seq<char>,
)
    ensures
        fold_file(acc, config, target) == merged(acc, contribution(config, target)),
{
    match relative_to(config.directory, target) {
        Some(relative) => {
            lemma_fold_sections_is_merge(acc, config.sections, relative);
        },
        None => {
            assert(acc =~= merged(acc, Map::empty()));
        },
    }
}

/// Folding the same file in a second time changes nothing.
pub proof fn lemma_fold_file_idempotent(
    acc: Map<Seq<char>, Setting>,
    config: ConfigModel,
    target: Seq<char>,
)
    ensures
        fold_file(fold_file(acc, config, target), config, target) == fold_file(acc, config, target),
{
    let once = fold_file(acc, config, target);
    lemma_fold_file_is_merge(acc, config, target);
    lemma_fold_file_is_merge(once, config, target);
    assert(merged(once, contribution(config, target)) =~= once);
}

/// A key that is decided stays as it is, whatever the directories visited
/// afterwards say.
pub proof fn lemma_walk_keeps_decisions(
    acc: Map<Seq<char>, Setting>,
    directories: Seq<Seq<char>>,
    store: Seq<ConfigModel>,
    target: Seq<char>,
    key: Seq<char>,
)
    requires
        acc.contains_key(key),
    ensures
        walk(acc, directories, store, target).contains_key(key),
        walk(acc, directories, store, target)[key] == acc[key],
    decreases directories.len(),
{
    if directories.len() > 0 {
        match config_at(store, directories[0]) {
            Some(config) => {
                lemma_fold_file_is_merge(acc, config, target);
                if !config.is_root {
                    lemma_walk_keeps_decisions(
                        fold_file(acc, config, target),
                        directories.drop_first(),
                        store,
                        target,
                        key,
                    );
                }
            },
            None => {
                lemma_walk_keeps_decisions(acc, directories.drop_first(), store, target, key);
            },
        }
    }
}

/// The walk never goes past a root: with a root file in the directory at
/// `index`, the directories after it count for nothing.
pub proof fn lemma_walk_stops_at_root(
    acc: Map<Seq<char>, Setting>,
    directories: Seq<Seq<char>>,
    store: Seq<ConfigModel>,
    target: Seq<char>,
    index: int,
)
    requires
        0 <= index < directories.len(),
        config_at(store, directories[index]) matches Some(config) && config.is_root,
    ensures
        walk(acc, directories, store, target) == walk(
            acc,
            directories.take(index + 1),
            store,
            target,
        ),
    decreases index,
{
    let shorter = directories.take(index + 1);
    assert(shorter[0] == directories[0]);
    if index > 0 {
        assert(shorter.drop_first() =~= directories.drop_first().take(index));
        match config_at(store, directories[0]) {
            Some(config) => {
                if !config.is_root {
                    lemma_walk_stops_at_root(
                        fold_file(acc, config, target),
                        directories.drop_first(),
                        store,
                        target,
                        index - 1,
                    );
                }
            },
            None => {
                lemma_walk_stops_at_root(acc, directories.drop_first(), store, target, index - 1);
            },
        }
    } else {
        assert(shorter.drop_first() =~= Seq::<Seq<char>>::empty());
    }
}

/// The walk reads the files of the directories it is given and no others:
/// two sets of loaded files that agree on those directories give the same
/// decisions.
pub proof fn lemma_walk_reads_listed_directories(
    acc: Map<Seq<char>, Setting>,
    directories: Seq<Seq<char>>,
    store: Seq<ConfigModel>,
    other: Seq<ConfigModel>,
    target: Seq<char>,
)
    requires
        forall|i: int|
            0 <= i < directories.len() ==> #[trigger] config_at(store, directories[i])
                == config_at(other, directories[i]),
    ensures
        walk(acc, directories, store, target) == walk(acc, directories, other, target),
    decreases directories.len(),
{
    if directories.len() > 0 {
        let rest = directories.drop_first();
        assert(config_at(store, directories[0]) == config_at(other, directories[0]));
        assert forall|i: int| 0 <= i < rest.len() implies #[trigger] config_at(store, rest[i])
            == config_at(other, rest[i]) by {
            assert(rest[i] == directories[i + 1]);
            assert(config_at(store, directories[i + 1]) == config_at(other, directories[i + 1]));
        }
        match config_at(store, directories[0]) {
            Some(config) => {
                if !config.is_root {
                    lemma_walk_reads_listed_directories(
                        fold_file(acc, config, target),
                        rest,
                        store,
                        other,
                        target,
                    );
                }
            },
            None => {
                lemma_walk_reads_listed_directories(acc, rest, store, other, target);
            },
        }
    }
}

/// Nothing above a root counts: two sets of loaded files that agree on the
/// ancestors of `target` up to one that holds a root file resolve `target`
/// to the same properties, whatever they hold for the directories above.
pub proof fn lemma_nothing_above_root_counts(
    target: Seq<char>,
    store: Seq<ConfigModel>,
    other: Seq<ConfigModel>,
    index: int,
)
    requires
        0 <= index < ancestors(target).len(),
        config_at(store, ancestors(target)[index]) matches Some(config) && config.is_root,
        forall|i: int|
            0 <= i <= index ==> #[trigger] config_at(store, ancestors(target)[i]) == config_at(
                other,
                ancestors(target)[i],
            ),
    ensures
        merged_definition(target, store) == merged_definition(target, other),
        resolved(target, store) == resolved(target, other),
{
    let directories = ancestors(target);
    let visited = directories.take(index + 1);
    assert(config_at(store, directories[index]) == config_at(other, directories[index]));
    lemma_walk_stops_at_root(Map::empty(), directories, store, target, index);
    lemma_walk_stops_at_root(Map::empty(), directories, other, target, index);
    assert forall|i: int| 0 <= i < visited.len() implies #[trigger] config_at(store, visited[i])
        == config_at(other, visited[i]) by {
        assert(visited[i] == directories[i]);
        assert(config_at(store, directories[i]) == config_at(other, directories[i]));
    }
    lemma_walk_reads_listed_directories(Map::empty(), visited, store, other, target);
}

/// Whether the walk reaches the directory at `index` with `key` still open:
/// no directory before it holds a root file or a file that decides `key`.
pub open spec fn open_until(
    directories: Seq<Seq<char>>,
    store: Seq<ConfigModel>,
    target: Seq<char>,
    index: int,
    key: Seq<char>,
) -> bool {
    forall|j: int|
        0 <= j < index ==> (#[trigger] config_at(store, directories[j]) matches Some(nearer)
            ==> !nearer.is_root && !contribution(nearer, target).contains_key(key))
}

/// The first file on the way that decides a key decides it for good.
pub proof fn lemma_first_decision_wins(
    acc: Map<Seq<char>, Setting>,
    directories: Seq<Seq<char>>,
    store: Seq<ConfigModel>,
    target: Seq<char>,
    index: int,
    key: Seq<char>,
)
    requires
        !acc.contains_key(key),
        0 <= index < directories.len(),
        open_until(directories, store, target, index, key),
        config_at(store, directories[index]) matches Some(config) && contribution(
            config,
            target,
        ).contains_key(key),
    ensures
        walk(acc, directories, store, target).contains_key(key),
        walk(acc, directories, store, target)[key] == contribution(
            config_at(store, directories[index])->0,
            target,
        )[key],
    decreases index,
{
    let rest = directories.drop_first();
    if index == 0 {
        let config = config_at(store, directories[0])->0;
        lemma_fold_file_is_merge(acc, config, target);
        if !config.is_root {
            lemma_walk_keeps_decisions(fold_file(acc, config, target), rest, store, target, key);
        }
    } else {
        assert forall|j: int| 0 <= j < index - 1 implies (#[trigger] config_at(store, rest[j])
            matches Some(nearer) ==> !nearer.is_root && !contribution(
            nearer,
            target,
        ).contains_key(key)) by {
            assert(rest[j] == directories[j + 1]);
        }
        assert(rest[index - 1] == directories[index]);
        match config_at(store, directories[0]) {
            Some(config) => {
                lemma_fold_file_is_merge(acc, config, target);
                lemma_first_decision_wins(
                    fold_file(acc, config, target),
                    rest,
                    store,
                    target,
                    index - 1,
                    key,
                );
            },
            None => {
                lemma_first_decision_wins(acc, rest, store, target, index - 1, key);
            },
        }
    }
}

/// Closest wins: the nearest file that decides a key gives the merged
/// decision for it, whatever any farther file says.
pub proof fn lemma_closest_wins(
    target: Seq<char>,
    store: Seq<ConfigModel>,
    index: int,
    key: Seq<char>,
)
    requires
        0 <= index < ancestors(target).len(),
        open_until(ancestors(target), store, target, index, key),
        config_at(store, ancestors(target)[index]) matches Some(config) && contribution(
            config,
            target,
        ).contains_key(key),
    ensures
        merged_definition(target, store).contains_key(key),
        merged_definition(target, store)[key] == contribution(
            config_at(store, ancestors(target)[index])->0,
            target,
        )[key],
{
    lemma_first_decision_wins(Map::empty(), ancestors(target), store, target, index, key);
}

/// Closest wins in the resolved properties: the value that the nearest
/// deciding file gives is the resolved value. The one value that the rules
/// replace afterwards, the indent size `tab` beside a numeric tab width, is
/// left out.
pub proof fn lemma_closest_value_is_resolved(
    target: Seq<char>,
    store: Seq<ConfigModel>,
    index: int,
    key: Seq<char>,
    value: Seq<char>,
)
    requires
        0 <= index < ancestors(target).len(),
        open_until(ancestors(target), store, target, index, key),
        config_at(store, ancestors(target)[index]) matches Some(config) && contribution(
            config,
            target,
        ).contains_key(key) && contribution(config, target)[key] == Setting::Present(value),
        !(key == "indent_size"@ && tab_size_is_replaced(merged_definition(target, store))),
    ensures
        resolved(target, store).contains_key(key),
        resolved(target, store)[key] == value,
{
    lemma_closest_wins(target, store, index, key);
    crate::property::lemma_normalized_keeps_value(merged_definition(target, store), key, value);
}

/// Unset permanence: a key that the nearest deciding file removes is not
/// among the resolved properties, whatever any farther file says.
pub proof fn lemma_unset_is_permanent(
    target: Seq<char>,
    store: Seq<ConfigModel>,
    index: int,
    key: Seq<char>,
)
    requires
        0 <= index < ancestors(target).len(),
        open_until(ancestors(target), store, target, index, key),
        config_at(store, ancestors(target)[index]) matches Some(config) && contribution(
            config,
            target,
        ).contains_key(key) && contribution(config, target)[key] is ExplicitlyUnset,
    ensures
        !resolved(target, store).contains_key(key),
{
    lemma_closest_wins(target, store, index, key);
    crate::property::lemma_normalized_keeps_unset(merged_definition(target, store), key);
}

/// With no configuration file in any ancestor directory, nothing is
/// resolved.
pub proof fn lemma_no_file_resolves_nothing(target: Seq<char>, store: Seq<ConfigModel>)
    requires
        forall|i: int|
            0 <= i < ancestors(target).len() ==> #[trigger] config_at(
                store,
                ancestors(target)[i],
            ) is None,
    ensures
        resolved(target, store) == Map::<Seq<char>, Seq<char>>::empty(),
{
    lemma_walk_without_files(Map::empty(), ancestors(target), store, target);
    crate::property::lemma_normalized_empty();
}

/// Directories without files leave the decisions as they are.
pub proof fn lemma_walk_without_files(
    acc: Map<Seq<char>, Setting>,
    directories: Seq<Seq<char>>,
    store: Seq<ConfigModel>,
    target: Seq<char>,
)
    requires
        forall|i: int|
            0 <= i < directories.len() ==> #[trigger] config_at(store, directories[i]) is None,
    ensures
        walk(acc, directories, store, target) == acc,
    decreases directories.len(),
{
    if directories.len() > 0 {
        let rest = directories.drop_first();
        assert forall|i: int| 0 <= i < rest.len() implies #[trigger] config_at(store, rest[i])
            is None by {
            assert(rest[i] == directories[i + 1]);
        }
        lemma_walk_without_files(acc, rest, store, target);
    }
}

} // verus!
