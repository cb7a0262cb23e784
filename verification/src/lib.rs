//! Resolution of per-file formatting properties from layered, glob-scoped
//! configuration files.
//!
//! For one target path the ancestor directories are walked, the nearest
//! first. Each directory may hold one configuration file: a root flag and a
//! list of sections, each a glob pattern with the properties that hold for
//! the paths it matches. The sections that apply to the target are merged
//! into one set of decisions, in which a key that is decided once, with a
//! value or as removed, is never revisited. Once the walk is over, derived
//! values are filled in, and the keys that have a value are the result.
//!
//! The library reads no file. A caller either drives a
//! [`resolve::Resolution`] one directory at a time and hands it the text it
//! found there, or loads the configuration files first and asks
//! [`resolve::get_editorconfig_for_file`] and [`resolve::get_definitions`].
//!
//! - [`walker`]: the ancestor directories of a path.
//! - [`paths`]: cleaning, joining and relating paths.
//! - [`glob`]: the pattern dialect of the section headers.
//! - [`property`]: tri-state property values, the merge, the normalization.
//! - [`config`]: configuration files and what the raw parser hands over.
//! - [`resolve`]: the resolution of a path and of a batch of paths.
//! - [`string_map`]: the insertion-ordered map that holds the results.
//! - [`text`]: helpers on characters.

pub mod config;
pub mod glob;
pub mod paths;
pub mod property;
pub mod resolve;
pub mod string_map;
pub mod text;
pub mod walker;

pub use config::{get_section_definition, is_root, parse_config, ConfigFile, Section};
pub use paths::make_absolute_paths;
pub use property::{merge, normalize, FileDefinition, PropertyValue, ResolvedProperties};
pub use resolve::{
    get_definitions, get_editorconfig_for_file, path_contains_editoconfig, Definitions, Resolution,
};
