use editorconfig_core::config::{parse_config, ConfigFile, Section};
use editorconfig_core::paths::{config_file_path, DEFAULT_CONFIG_NAME};
use editorconfig_core::property::{FileDefinition, PropertyValue, ResolvedProperties};
use editorconfig_core::resolve::{
    get_definitions, get_editorconfig_for_file, merge_file, path_contains_editoconfig, Resolution,
};

fn present(value: &str) -> PropertyValue {
    PropertyValue::Present(value.to_string())
}

fn config(directory: &str, text: &str) -> ConfigFile {
    parse_config(directory, text).unwrap()
}

fn pairs(resolved: &ResolvedProperties) -> Vec<(String, String)> {
    let mut all: Vec<(String, String)> = (0..resolved.len())
        .map(|i| (resolved.key_at(i).clone(), resolved.value_at(i).clone()))
        .collect();
    all.sort();
    all
}

fn expect(resolved: &ResolvedProperties, expected: &[(&str, &str)]) {
    let mut want: Vec<(String, String)> =
        expected.iter().map(|(k, v)| (k.to_string(), v.to_string())).collect();
    want.sort();
    assert_eq!(pairs(resolved), want);
}

#[test]
fn a_root_file_and_a_nearer_file_are_merged_and_normalized() {
    let configs = vec![
        config("/root", "root = true\n\n[*]\nindent_style = space\n"),
        config("/root/sub", "[*.py]\nindent_size = 2\n"),
    ];
    let resolved = get_editorconfig_for_file("/root/sub/a.py", &configs);
    expect(&resolved, &[("indent_style", "space"), ("indent_size", "2"), ("tab_width", "2")]);
}

#[test]
fn no_configuration_file_resolves_to_nothing() {
    let resolved = get_editorconfig_for_file("/root/sub/a.py", &Vec::new());
    assert_eq!(resolved.len(), 0);
    let elsewhere = vec![config("/other", "[*]\ncharset = utf-8\n")];
    assert_eq!(get_editorconfig_for_file("/root/sub/a.py", &elsewhere).len(), 0);
    assert_eq!(get_editorconfig_for_file("/", &elsewhere).len(), 0);
}

#[test]
fn nothing_above_a_root_file_is_looked_at() {
    let configs = vec![
        config("/", "[*]\ncharset = latin1\nend_of_line = crlf\n"),
        config("/root", "root = true\n[*]\ncharset = utf-8\n"),
        config("/root/sub", "[*]\nindent_style = space\n"),
    ];
    let resolved = get_editorconfig_for_file("/root/sub/a.py", &configs);
    expect(&resolved, &[("charset", "utf-8"), ("indent_style", "space")]);
    let above = get_editorconfig_for_file("/b.py", &configs);
    expect(&above, &[("charset", "latin1"), ("end_of_line", "crlf")]);
}

#[test]
fn without_a_root_file_the_walk_reaches_the_top() {
    let configs = vec![
        config("/", "[*]\nend_of_line = crlf\n"),
        config("/root", "[*]\ncharset = utf-8\n"),
    ];
    let resolved = get_editorconfig_for_file("/root/sub/a.py", &configs);
    expect(&resolved, &[("charset", "utf-8"), ("end_of_line", "crlf")]);
}

#[test]
fn the_nearer_definition_wins() {
    let configs = vec![
        config("/root", "[*]\ncharset = latin1\nend_of_line = lf\n"),
        config("/root/sub", "[*]\ncharset = utf-8\n"),
    ];
    let resolved = get_editorconfig_for_file("/root/sub/a.py", &configs);
    expect(&resolved, &[("charset", "utf-8"), ("end_of_line", "lf")]);
}

#[test]
fn a_nearer_unset_removes_the_key_for_good() {
    let configs = vec![
        config("/", "[*]\ncharset = ascii\n"),
        config("/root", "[*]\ncharset = latin1\nend_of_line = lf\n"),
        config("/root/sub", "[*]\ncharset = unset\n"),
    ];
    let resolved = get_editorconfig_for_file("/root/sub/a.py", &configs);
    expect(&resolved, &[("end_of_line", "lf")]);
    assert_eq!(resolved.get("charset"), None);
}

#[test]
fn a_removed_indent_size_is_not_derived_again() {
    let configs = vec![
        config("/root", "[*]\nindent_style = tab\nindent_size = 4\n"),
        config("/root/sub", "[*]\nindent_size = unset\n"),
    ];
    let resolved = get_editorconfig_for_file("/root/sub/a.py", &configs);
    expect(&resolved, &[("indent_style", "tab")]);
}

#[test]
fn in_one_file_the_first_matching_section_wins() {
    let configs = vec![config(
        "/root",
        "[*]\ncharset = utf-8\nend_of_line = lf\n[*.py]\ncharset = latin1\nindent_size = 4\n",
    )];
    let resolved = get_editorconfig_for_file("/root/a.py", &configs);
    expect(
        &resolved,
        &[("charset", "utf-8"), ("end_of_line", "lf"), ("indent_size", "4"), ("tab_width", "4")],
    );
}

#[test]
fn only_matching_sections_count() {
    let configs = vec![config(
        "/root",
        "[*.rs]\ncharset = latin1\n[sub/*.py]\nindent_size = 8\n[*.{py,pyi}]\nindent_style = space\n[{a,b]\ncharset = x\n",
    )];
    let nested = get_editorconfig_for_file("/root/sub/a.py", &configs);
    expect(&nested, &[("indent_size", "8"), ("tab_width", "8"), ("indent_style", "space")]);
    let top = get_editorconfig_for_file("/root/a.py", &configs);
    expect(&top, &[("indent_style", "space")]);
    let other = get_editorconfig_for_file("/root/a.txt", &configs);
    assert_eq!(other.len(), 0);
}

#[test]
fn normalization_runs_once_over_the_final_merge() {
    let configs = vec![
        config("/root", "[*]\ntab_width = 8\n"),
        config("/root/sub", "[*]\nindent_size = 2\n"),
    ];
    let resolved = get_editorconfig_for_file("/root/sub/a.py", &configs);
    expect(&resolved, &[("indent_size", "2"), ("tab_width", "8")]);
    let tabs = vec![
        config("/root", "[*]\ntab_width = 8\n"),
        config("/root/sub", "[*]\nindent_style = tab\n"),
    ];
    let by_tab = get_editorconfig_for_file("/root/sub/a.py", &tabs);
    expect(&by_tab, &[("indent_style", "tab"), ("indent_size", "8"), ("tab_width", "8")]);
}

#[test]
fn the_first_file_loaded_for_a_directory_is_the_one_that_counts() {
    let configs = vec![
        config("/root", "[*]\ncharset = utf-8\n"),
        config("/root", "[*]\ncharset = latin1\nend_of_line = lf\n"),
    ];
    let resolved = get_editorconfig_for_file("/root/a.py", &configs);
    expect(&resolved, &[("charset", "utf-8")]);
}

#[test]
fn merge_file_folds_the_matching_sections_of_one_file() {
    let file = config("/root", "[*.py]\ncharset = utf-8\n[*]\ncharset = latin1\nend_of_line = lf\n");
    let mut acc = FileDefinition::new();
    acc.set("end_of_line", PropertyValue::ExplicitlyUnset);
    let merged = merge_file(&acc, &file, "/root/sub/a.py");
    assert_eq!(merged.get("charset"), present("utf-8"));
    assert_eq!(merged.get("end_of_line"), PropertyValue::ExplicitlyUnset);
    assert_eq!(merged.entries().len(), 2);
    let outside = merge_file(&acc, &file, "/elsewhere/a.py");
    assert_eq!(outside.get("charset"), PropertyValue::Absent);
    assert_eq!(outside.entries().len(), 1);
}

#[test]
fn merging_the_same_file_twice_is_merging_it_once() {
    let file = config(
        "/root",
        "[*]\ncharset = utf-8\nindent_size = unset\n[*.py]\ncharset = latin1\ntab_width = 4\n",
    );
    let mut acc = FileDefinition::new();
    acc.set("end_of_line", present("lf"));
    let once = merge_file(&acc, &file, "/root/a.py");
    let twice = merge_file(&once, &file, "/root/a.py");
    assert_eq!(once.entries().len(), 4);
    assert_eq!(twice.entries().len(), 4);
    for key in ["charset", "indent_size", "tab_width", "end_of_line", "other"] {
        assert_eq!(twice.get(key), once.get(key));
    }
}

#[test]
fn path_contains_editoconfig_tells_whether_a_file_is_loaded() {
    let configs = vec![config("/root", ""), config("/root/sub", "")];
    assert!(path_contains_editoconfig("/root", &configs));
    assert!(path_contains_editoconfig("/root/sub", &configs));
    assert!(!path_contains_editoconfig("/", &configs));
    assert!(!path_contains_editoconfig("/root/", &configs));
    assert!(!path_contains_editoconfig("/root", &Vec::new()));
}

#[test]
fn get_definitions_resolves_each_path_of_the_batch() {
    let configs = vec![
        config("/root", "root = true\n[*.py]\nindent_size = 4\n[*.md]\ncharset = utf-8\n"),
    ];
    let paths = vec![
        "/root/a.py".to_string(),
        "/root/docs/b.md".to_string(),
        "/root/c.txt".to_string(),
        "/root/a.py".to_string(),
    ];
    let definitions = get_definitions(paths, &configs);
    assert_eq!(definitions.len(), 3);
    expect(definitions.get("/root/a.py").unwrap(), &[("indent_size", "4"), ("tab_width", "4")]);
    expect(definitions.get("/root/docs/b.md").unwrap(), &[("charset", "utf-8")]);
    assert_eq!(definitions.get("/root/c.txt").unwrap().len(), 0);
    assert!(definitions.get("/root/d.txt").is_none());
    assert_eq!(definitions.key_at(0), "/root/a.py");
    assert_eq!(definitions.key_at(2), "/root/c.txt");
    assert_eq!(get_definitions(Vec::new(), &configs).len(), 0);
}

#[test]
fn a_resolution_is_driven_one_directory_at_a_time() {
    let mut resolution = Resolution::begin("/root/sub/a.py");
    let first = resolution.next_directory().unwrap();
    assert_eq!(first, "/root/sub");
    assert_eq!(config_file_path(&first, DEFAULT_CONFIG_NAME), "/root/sub/.editorconfig");
    assert_eq!(resolution.supply_text(&first, "[*.py]\nindent_size = 2\n"), Ok(()));
    let second = resolution.next_directory().unwrap();
    assert_eq!(second, "/root");
    assert_eq!(
        resolution.supply_text(&second, "root = true\n[*]\nindent_style = space\n"),
        Ok(())
    );
    assert_eq!(resolution.next_directory(), None);
    assert_eq!(resolution.definition().get("indent_size"), present("2"));
    assert_eq!(resolution.definition().get("tab_width"), PropertyValue::Absent);
    let resolved = resolution.finish();
    expect(&resolved, &[("indent_style", "space"), ("indent_size", "2"), ("tab_width", "2")]);
}

#[test]
fn a_malformed_file_counts_for_nothing_and_the_walk_goes_on() {
    let mut resolution = Resolution::begin("/root/sub/a.py");
    let first = resolution.next_directory().unwrap();
    let outcome = resolution.supply_text(&first, "root = true\n[*\ncharset = latin1\n");
    assert!(outcome.is_err());
    assert_eq!(resolution.definition().entries().len(), 0);
    let second = resolution.next_directory().unwrap();
    assert_eq!(second, "/root");
    assert_eq!(resolution.supply_text(&second, "[*]\ncharset = utf-8\n"), Ok(()));
    assert_eq!(resolution.next_directory(), Some("/".to_string()));
    assert_eq!(resolution.next_directory(), None);
    expect(&resolution.finish(), &[("charset", "utf-8")]);
}

#[test]
fn a_directory_without_a_file_is_passed_over() {
    let mut resolution = Resolution::begin("/a/b/c.txt");
    assert_eq!(resolution.next_directory(), Some("/a/b".to_string()));
    assert_eq!(resolution.next_directory(), Some("/a".to_string()));
    let mut properties = FileDefinition::new();
    properties.set("charset", present("utf-8"));
    resolution.supply(&ConfigFile::new("/a", false, vec![Section::new("b/*.txt", properties)]));
    assert_eq!(resolution.next_directory(), Some("/".to_string()));
    assert_eq!(resolution.next_directory(), None);
    expect(&resolution.finish(), &[("charset", "utf-8")]);
}

#[test]
fn supplying_a_root_file_ends_the_walk() {
    let mut resolution = Resolution::begin("/a/b/c.txt");
    assert_eq!(resolution.next_directory(), Some("/a/b".to_string()));
    resolution.supply(&ConfigFile::new("/a/b", true, Vec::new()));
    assert_eq!(resolution.next_directory(), None);
    assert_eq!(resolution.finish().len(), 0);
}
