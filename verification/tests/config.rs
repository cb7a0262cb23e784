use editorconfig_core::config::{
    get_section_definition, is_root, parse_config, ConfigFile, RawSection, Section,
};
use editorconfig_core::property::{FileDefinition, PropertyValue};

fn present(value: &str) -> PropertyValue {
    PropertyValue::Present(value.to_string())
}

fn raw(name: Option<&str>, pairs: &[(&str, &str)]) -> RawSection {
    RawSection {
        name: name.map(|n| n.to_string()),
        pairs: pairs.iter().map(|(k, v)| (k.to_string(), v.to_string())).collect(),
    }
}

#[test]
fn parse_config_reads_sections_in_file_order() {
    let text = "root = true\n\n[*]\nindent_style = space\n\n[*.py]\nindent_size = 4\ncharset = utf-8\n";
    let config = parse_config("/project", text).unwrap();
    assert_eq!(config.directory(), "/project");
    assert!(config.is_root());
    let sections = config.sections();
    assert_eq!(sections.len(), 2);
    assert_eq!(sections[0].pattern(), "*");
    assert_eq!(sections[0].properties().get("indent_style"), present("space"));
    assert_eq!(sections[1].pattern(), "*.py");
    assert_eq!(sections[1].properties().get("indent_size"), present("4"));
    assert_eq!(sections[1].properties().get("charset"), present("utf-8"));
    assert_eq!(sections[1].properties().get("indent_style"), PropertyValue::Absent);
}

#[test]
fn parse_config_without_root_flag_is_no_root() {
    let config = parse_config("/p", "[*]\ncharset = utf-8\n").unwrap();
    assert!(!config.is_root());
    let empty = parse_config("/p", "").unwrap();
    assert!(!empty.is_root());
    assert_eq!(empty.sections().len(), 0);
}

#[test]
fn parse_config_puts_keys_in_lower_case() {
    let config = parse_config("/p", "[*]\nIndent_Size = 4\nCHARSET = UTF-8\n").unwrap();
    let properties = config.sections()[0].properties();
    assert_eq!(properties.get("indent_size"), present("4"));
    assert_eq!(properties.get("charset"), present("UTF-8"));
    assert_eq!(properties.get("Indent_Size"), PropertyValue::Absent);
}

#[test]
fn parse_config_keeps_sections_with_the_same_header_apart() {
    let config = parse_config("/p", "[*.py]\na = 1\n[*.rs]\nb = 2\n[*.py]\nc = 3\n").unwrap();
    let sections = config.sections();
    assert_eq!(sections.len(), 3);
    assert_eq!(sections[0].pattern(), "*.py");
    assert_eq!(sections[0].properties().get("a"), present("1"));
    assert_eq!(sections[0].properties().get("c"), PropertyValue::Absent);
    assert_eq!(sections[1].pattern(), "*.rs");
    assert_eq!(sections[2].pattern(), "*.py");
    assert_eq!(sections[2].properties().get("c"), present("3"));
}

#[test]
fn parse_config_lets_a_later_pair_override_an_earlier_one() {
    let config = parse_config("/p", "[*]\ncharset = latin1\ncharset = utf-8\n").unwrap();
    assert_eq!(config.sections()[0].properties().get("charset"), present("utf-8"));
    assert_eq!(config.sections()[0].properties().entries().len(), 1);
}

#[test]
fn parse_config_reads_unset_and_drops_values_of_the_wrong_form() {
    let text = "[*]\nindent_size = unset\ntab_width = wide\ncharset = unset\nend_of_line = lf\n";
    let config = parse_config("/p", text).unwrap();
    let properties = config.sections()[0].properties();
    assert_eq!(properties.get("indent_size"), PropertyValue::ExplicitlyUnset);
    assert_eq!(properties.get("tab_width"), PropertyValue::Absent);
    assert_eq!(properties.get("charset"), PropertyValue::ExplicitlyUnset);
    assert_eq!(properties.get("end_of_line"), present("lf"));
}

#[test]
fn parse_config_rejects_what_the_parser_rejects() {
    let unclosed = parse_config("/p", "[*.py\nindent_size = 4\n");
    assert!(unclosed.is_err());
    let no_key = parse_config("/p", "[*]\n= 4\n");
    let error = no_key.unwrap_err();
    assert_eq!(error.line, 2);
    assert!(!error.message.is_empty());
}

#[test]
fn is_root_reads_the_block_before_the_first_header() {
    assert!(is_root(&vec![raw(None, &[("root", "true")])]));
    assert!(is_root(&vec![raw(None, &[("other", "x"), ("root", "true")]), raw(Some("*"), &[])]));
    assert!(!is_root(&vec![raw(None, &[("root", "false")])]));
    assert!(!is_root(&vec![raw(None, &[("other", "true")])]));
    assert!(!is_root(&vec![raw(Some("*"), &[("root", "true")])]));
    assert!(!is_root(&vec![]));
    assert!(!is_root(&vec![raw(None, &[])]));
}

#[test]
fn is_root_takes_the_key_in_any_case_and_the_value_as_written() {
    assert!(is_root(&vec![raw(None, &[("Root", "true")])]));
    assert!(is_root(&vec![raw(None, &[("ROOT", "true")])]));
    assert!(!is_root(&vec![raw(None, &[("root", "True")])]));
    assert!(!is_root(&vec![raw(None, &[("root", "yes")])]));
}

#[test]
fn is_root_goes_by_the_first_root_pair() {
    assert!(is_root(&vec![raw(None, &[("root", "true"), ("root", "false")])]));
    assert!(!is_root(&vec![raw(None, &[("root", "false"), ("root", "true")])]));
}

#[test]
fn get_section_definition_folds_the_pairs_in_order() {
    let section = raw(
        Some("*"),
        &[
            ("Indent_Style", "tab"),
            ("indent_size", "wide"),
            ("charset", "latin1"),
            ("CHARSET", "utf-8"),
            ("end_of_line", "unset"),
            ("indent_size", "8"),
            ("indent_size", "huge"),
        ],
    );
    let d = get_section_definition(&section);
    assert_eq!(d.get("indent_style"), present("tab"));
    assert_eq!(d.get("indent_size"), present("8"));
    assert_eq!(d.get("charset"), present("utf-8"));
    assert_eq!(d.get("end_of_line"), PropertyValue::ExplicitlyUnset);
    assert_eq!(d.entries().len(), 4);
    assert_eq!(get_section_definition(&raw(None, &[])).entries().len(), 0);
}

#[test]
fn from_document_passes_over_blocks_without_a_name() {
    let document = vec![
        raw(None, &[("root", "true"), ("charset", "utf-8")]),
        raw(Some(""), &[("a", "1")]),
        raw(Some("*.md"), &[("b", "2")]),
    ];
    let config = ConfigFile::from_document("/docs", &document);
    assert!(config.is_root());
    assert_eq!(config.directory(), "/docs");
    assert_eq!(config.sections().len(), 1);
    assert_eq!(config.sections()[0].pattern(), "*.md");
    assert_eq!(config.sections()[0].properties().get("b"), present("2"));
}

#[test]
fn a_config_file_is_what_it_is_built_from() {
    let mut properties = FileDefinition::new();
    properties.set("charset", present("utf-8"));
    let config = ConfigFile::new("/a", false, vec![Section::new("*.c", properties)]);
    assert_eq!(config.directory(), "/a");
    assert!(!config.is_root());
    assert_eq!(config.sections().len(), 1);
    assert_eq!(config.sections()[0].pattern(), "*.c");
    assert_eq!(config.sections()[0].properties().get("charset"), present("utf-8"));
}
