//! Configuration files: what the raw parser hands over, and the sections and
//! root flag that the library reads from it.

use crate::property::{classified, parse_value, recorded, FileDefinition, Setting};
use crate::text::same_text;
use vstd::prelude::*;

verus! {

/// A block of a parsed file as plain text: its header, or `None` for the
/// block before the first header, and its key/value pairs in file order.
#[derive(Debug, Clone, PartialEq, Eq)]
pub struct RawSection {
    pub name: Option<String>,
    pub pairs: Vec<(String, String)>,
}

/// The mathematical counterpart of a `RawSection`: header and pairs.
pub type RawSectionModel = (Option<Seq<char>>, Seq<(Seq<char>, Seq<char>)>);

impl View for RawSection {
    type V = RawSectionModel;

    /// The header and the pairs, as sequences of characters.
    open spec fn view(&self) -> RawSectionModel {
        (
            match self.name {
                Some(n) => Some(n@),
                None => None,
            },
            Seq::new(self.pairs@.len(), |i: int| (self.pairs@[i].0@, self.pairs@[i].1@)),
        )
    }
}

/// The models of a list of raw sections.
pub open spec fn raw_models(document: Seq<RawSection>) -> Seq<RawSectionModel> {
    Seq::new(document.len(), |i: int| document[i]@)
}

/// A file that the raw parser could not read: where it stopped, and why.
#[derive(Debug, Clone, PartialEq, Eq)]
pub struct ConfigParseError {
    pub line: usize,
    pub column: usize,
    pub message: String,
}

/// What `ini::Ini::load_from_str` reads from a text: the blocks in file
/// order, or `None` where it rejects the text.
pub uninterp spec fn ini_document(text: Seq<char>) -> Option<Seq<RawSectionModel>>;

/// What `str::to_lowercase` makes of a text.
pub uninterp spec fn lowercase_of(s: Seq<char>) -> Seq<char>;

/// Calls `ini::Ini::load_from_str` and copies out what it read: every block
/// with its header, in the order of `Ini::iter`, and in each block every pair
/// in the order of `Properties::iter`. A parse error comes back with its
/// line, column and message. The contract only gives the outcome its name and
/// says that the text is either read or rejected.
#[verifier::external_body]
fn parse_ini(text: &str) -> (r: Result<Vec<RawSection>, ConfigParseError>)
    ensures
        match r {
            Ok(document) => ini_document(text@) == Some(raw_models(document@)),
            Err(_) => ini_document(text@) is None,
        },
{
    match ini::Ini::load_from_str(text) {
        Ok(doc) => Ok(
            doc.iter().map(
                |(name, props)|
                    RawSection {
                        name: name.map(|n| n.to_owned()),
                        pairs: props.iter().map(|(k, v)| (k.to_owned(), v.to_owned())).collect(),
                    },
            ).collect(),
        ),
        Err(e) => Err(ConfigParseError { line: e.line, column: e.col, message: e.msg.into_owned() }),
    }
}

/// Calls `str::to_lowercase`, which maps a text to its lower-case form by the
/// Unicode rules. The contract only gives the outcome its name.
#[verifier::external_body]
fn to_lowercase(s: &str) -> (r: String)
    ensures
        r@ == lowercase_of(s@),
{
    s.to_lowercase()
}

/// The value of the first pair whose key, in lower case, is `key`.
pub open spec fn first_value(pairs: Seq<(Seq<char>, Seq<char>)>, key: Seq<char>) -> Option<
    Seq<char>,
>
    decreases pairs.len(),
{
    if pairs.len() == 0 {
        None
    } else if lowercase_of(pairs[0].0) == key {
        Some(pairs[0].1)
    } else {
        first_value(pairs.drop_first(), key)
    }
}

/// The pairs of the first block without a header.
pub open spec fn general_pairs(document: Seq<RawSectionModel>) -> Option<
    Seq<(Seq<char>, Seq<char>)>,
>
    decreases document.len(),
{
    if document.len() == 0 {
        None
    } else if document[0].0 is None {
        Some(document[0].1)
    } else {
        general_pairs(document.drop_first())
    }
}

/// Whether a document marks its directory as the root: the block before the
/// first header holds `root`, and the first such pair has the value `true`.
pub open spec fn root_flag(document: Seq<RawSectionModel>) -> bool {
    match general_pairs(document) {
        Some(pairs) => first_value(pairs, "root"@) == Some("true"@),
        None => false,
    }
}

/// Whether the document marks its directory as the root of the walk.
pub fn is_root(document: &Vec<RawSection>) -> (r: bool)
    ensures
        r == root_flag(raw_models(document@)),
{
    let mut i: usize = 0;
    assert(raw_models(document@).skip(0) =~= raw_models(document@));
    while i < document.len()
        invariant
            i <= document.len(),
            general_pairs(raw_models(document@)) == general_pairs(
                raw_models(document@).skip(i as int),
            ),
        decreases document.len() - i,
    {
        assert(raw_models(document@).skip(i as int)[0] == document@[i as int]@);
        assert(raw_models(document@).skip(i as int).drop_first() == raw_models(document@).skip(
            i + 1,
        ));
        if document[i].name.is_none() {
            let pairs = &document[i].pairs;
            let ghost all = document@[i as int]@.1;
            let mut j: usize = 0;
            assert(all.skip(0) =~= all);
            while j < pairs.len()
                invariant
                    j <= pairs.len(),
                    general_pairs(raw_models(document@)) == Some(all),
                    all.len() == pairs@.len(),
                    forall|k: int|
                        0 <= k < pairs@.len() ==> #[trigger] all[k] == (pairs@[k].0@, pairs@[k].1@),
                    first_value(all, "root"@) == first_value(all.skip(j as int), "root"@),
                decreases pairs.len() - j,
            {
                assert(all.skip(j as int)[0] == all[j as int]);
                assert(all.skip(j as int).drop_first() == all.skip(j + 1));
                let key = to_lowercase(pairs[j].0.as_str());
                if same_text(key.as_str(), "root") {
                    return same_text(pairs[j].1.as_str(), "true");
                }
                j += 1;
            }
            return false;
        }
        i += 1;
    }
    false
}

/// What the pairs of one block decide, read in file order: each key in lower
/// case, a later pair overriding an earlier one for the same key, and a value
/// of the wrong form counting as never written.
pub open spec fn definition_of(pairs: Seq<(Seq<char>, Seq<char>)>) -> Map<Seq<char>, Setting>
    decreases pairs.len(),
{
    if pairs.len() == 0 {
        Map::empty()
    } else {
        let key = lowercase_of(pairs.last().0);
        recorded(definition_of(pairs.drop_last()), key, classified(key, pairs.last().1))
    }
}

/// Every key that a block decides is the lower-case form of a key written
/// in it.
pub proof fn lemma_definition_keys_are_lower_case(
    pairs: Seq<(Seq<char>, Seq<char>)>,
    key: Seq<char>,
)
    requires
        definition_of(pairs).contains_key(key),
    ensures
        exists|i: int| 0 <= i < pairs.len() && key == lowercase_of(#[trigger] pairs[i].0),
    decreases pairs.len(),
{
    if pairs.len() > 0 {
        let last = pairs.len() - 1;
        if key == lowercase_of(pairs.last().0) {
            assert(key == lowercase_of(pairs[last].0));
        } else {
            lemma_definition_keys_are_lower_case(pairs.drop_last(), key);
            let i = choose|i: int|
                0 <= i < pairs.drop_last().len() && key == lowercase_of(
                    #[trigger] pairs.drop_last()[i].0,
                );
            assert(pairs.drop_last()[i] == pairs[i]);
        }
    }
}

/// Reads the decisions that one block of a file holds.
pub fn get_section_definition(section: &RawSection) -> (r: FileDefinition)
    ensures
        r@ == definition_of(section@.1),
{
    let mut r = FileDefinition::new();
    let ghost all = section@.1;
    let mut i: usize = 0;
    while i < section.pairs.len()
        invariant
            i <= section.pairs.len(),
            all == section@.1,
            r@ == definition_of(all.take(i as int)),
        decreases section.pairs.len() - i,
    {
        assert(all.take(i + 1).drop_last() == all.take(i as int));
        let key = to_lowercase(section.pairs[i].0.as_str());
        match parse_value(key.as_str(), section.pairs[i].1.as_str()) {
            Ok(value) => {
                r.set(key.as_str(), value);
            },
            Err(_) => {},
        }
        i += 1;
    }
    assert(all.take(section.pairs.len() as int) == all);
    r
}

/// A glob pattern and the decisions that hold for the paths it matches.
#[derive(Debug)]
pub struct Section {
    pattern: String,
    properties: FileDefinition,
}

/// The mathematical counterpart of a `Section`.
pub struct SectionModel {
    pub pattern: Seq<char>,
    pub properties: Map<Seq<char>, Setting>,
}

impl View for Section {
    type V = SectionModel;

    /// The pattern and the decisions, as mathematical values.
    closed spec fn view(&self) -> SectionModel {
        SectionModel { pattern: self.pattern@, properties: self.properties@ }
    }
}

impl Section {
    /// The section headed by `pattern` that holds `properties`.
    pub fn new(pattern: &str, properties: FileDefinition) -> (r: Section)
        ensures
            r@ == (SectionModel { pattern: pattern@, properties: properties@ }),
    {
        Section { pattern: pattern.to_owned(), properties }
    }

    /// The glob pattern of the header.
    pub fn pattern(&self) -> (r: &String)
        ensures
            r@ == self@.pattern,
    {
        &self.pattern
    }

    /// What the section decides.
    pub fn properties(&self) -> (r: &FileDefinition)
        ensures
            r@ == self@.properties,
    {
        &self.properties
    }
}

/// One configuration file: the directory that holds it, whether it ends the
/// upward walk, and its sections in file order.
#[derive(Debug)]
pub struct ConfigFile {
    directory: String,
    is_root: bool,
    sections: Vec<Section>,
}

/// The mathematical counterpart of a `ConfigFile`.
pub struct ConfigModel {
    pub directory: Seq<char>,
    pub is_root: bool,
    pub sections: Seq<SectionModel>,
}

/// The models of a list of sections.
pub open spec fn section_models(sections: Seq<Section>) -> Seq<SectionModel> {
    Seq::new(sections.len(), |i: int| sections[i]@)
}

impl View for ConfigFile {
    type V = ConfigModel;

    /// The directory, the root flag and the sections, as mathematical values.
    closed spec fn view(&self) -> ConfigModel {
        ConfigModel {
            directory: self.directory@,
            is_root: self.is_root,
            sections: section_models(self.sections@),
        }
    }
}

/// The sections that a document holds: one for each block with a header that
/// is not empty, in file order.
pub open spec fn sections_of(document: Seq<RawSectionModel>) -> Seq<SectionModel>
    decreases document.len(),
{
    if document.len() == 0 {
        Seq::empty()
    } else {
        let before = sections_of(document.drop_last());
        match document.last().0 {
            Some(name) => if name.len() > 0 {
                before.push(
                    SectionModel { pattern: name, properties: definition_of(document.last().1) },
                )
            } else {
                before
            },
            None => before,
        }
    }
}

/// The configuration file that a document in `directory` stands for.
pub open spec fn config_of(directory: Seq<char>, document: Seq<RawSectionModel>) -> ConfigModel {
    ConfigModel {
        directory,
        is_root: root_flag(document),
        sections: sections_of(document),
    }
}

impl ConfigFile {
    /// The configuration file of `directory` with these sections.
    pub fn new(directory: &str, is_root: bool, sections: Vec<Section>) -> (r: ConfigFile)
        ensures
            r@ == (ConfigModel {
                directory: directory@,
                is_root,
                sections: section_models(sections@),
            }),
    {
        ConfigFile { directory: directory.to_owned(), is_root, sections }
    }

    /// The directory that holds the file.
    pub fn directory(&self) -> (r: &String)
        ensures
            r@ == self@.directory,
    {
        &self.directory
    }

    /// Whether the file ends the upward walk.
    pub fn is_root(&self) -> (r: bool)
        ensures
            r == self@.is_root,
    {
        self.is_root
    }

    /// The sections in file order.
    pub fn sections(&self) -> (r: &Vec<Section>)
        ensures
            section_models(r@) == self@.sections,
    {
        &self.sections
    }

    /// Builds the configuration file of `directory` from what the raw parser
    /// read there.
    pub fn from_document(directory: &str, document: &Vec<RawSection>) -> (r: ConfigFile)
        ensures
            r@ == config_of(directory@, raw_models(document@)),
    {
        let root = is_root(document);
        let mut sections: Vec<Section> = Vec::new();
        let ghost all = raw_models(document@);
        let mut i: usize = 0;
        while i < document.len()
            invariant
                i <= document.len(),
                all == raw_models(document@),
                section_models(sections@) == sections_of(all.take(i as int)),
            decreases document.len() - i,
        {
            assert(all.take(i + 1).drop_last() == all.take(i as int));
            assert(all.take(i + 1).last() == document@[i as int]@);
            let ghost before = section_models(sections@);
            proof {
                reveal_strlit("");
            }
            match &document[i].name {
                Some(name) => {
                    assert(document@[i as int]@.0 == Some(name@));
                    assert(name@.len() == 0 <==> name@ =~= ""@);
                    if !same_text(name.as_str(), "") {
                        let properties = get_section_definition(&document[i]);
                        sections.push(Section::new(name.as_str(), properties));
                        assert(section_models(sections@) =~= before.push(
                            SectionModel {
                                pattern: name@,
                                properties: definition_of(document@[i as int]@.1),
                            },
                        ));
                    }
                },
                None => {
                    assert(document@[i as int]@.0 is None);
                },
            }
            i += 1;
        }
        assert(all.take(document.len() as int) == all);
        ConfigFile { directory: directory.to_owned(), is_root: root, sections }
    }
}

/// Reads the text of the configuration file of `directory`. The text is
/// handed to the raw parser; what the parser read then decides the root flag
/// and the sections.
pub fn parse_config(directory: &str, text: &str) -> (r: Result<ConfigFile, ConfigParseError>)
    ensures
        match r {
            Ok(config) => ini_document(text@) matches Some(document) && config@ == config_of(
                directory@,
                document,
            ),
            Err(_) => ini_document(text@) is None,
        },
{
    match parse_ini(text) {
        Ok(document) => Ok(ConfigFile::from_document(directory, &document)),
        Err(e) => Err(e),
    }
}

} // verus!
