use editorconfig_core::paths::{
    config_file_path, make_absolute_paths, relative_path, DEFAULT_CONFIG_NAME,
};

#[test]
fn make_absolute_paths_cleans_each_path() {
    let cleaned = make_absolute_paths(vec![
        "/a/./b/../c.txt".to_string(),
        "/x//y/".to_string(),
        "/plain/file".to_string(),
        "/../up".to_string(),
    ]);
    assert_eq!(
        cleaned,
        vec![
            "/a/c.txt".to_string(),
            "/x/y".to_string(),
            "/plain/file".to_string(),
            "/up".to_string()
        ]
    );
    assert_eq!(make_absolute_paths(Vec::new()), Vec::<String>::new());
}

#[test]
fn the_default_configuration_file_name() {
    assert_eq!(DEFAULT_CONFIG_NAME, ".editorconfig");
}

#[test]
fn config_file_path_joins_directory_and_name() {
    assert_eq!(config_file_path("/root/sub", ".editorconfig"), "/root/sub/.editorconfig");
    assert_eq!(config_file_path("/", ".editorconfig"), "/.editorconfig");
    assert_eq!(config_file_path("/root/", "conf"), "/root/conf");
    assert_eq!(config_file_path("", "conf"), "conf");
}

#[test]
fn relative_path_is_what_follows_the_directory() {
    assert_eq!(relative_path("/root", "/root/sub/a.py"), Some("sub/a.py".to_string()));
    assert_eq!(relative_path("/root/sub", "/root/sub/a.py"), Some("a.py".to_string()));
    assert_eq!(relative_path("/", "/root/a.py"), Some("root/a.py".to_string()));
    assert_eq!(relative_path("/root/", "/root/a.py"), Some("a.py".to_string()));
    assert_eq!(relative_path("", "a.py"), Some("a.py".to_string()));
    assert_eq!(relative_path("/d\u{e9}", "/d\u{e9}/\u{f6}.txt"), Some("\u{f6}.txt".to_string()));
}

#[test]
fn relative_path_asks_for_a_path_below_the_directory() {
    assert_eq!(relative_path("/root", "/other/a.py"), None);
    assert_eq!(relative_path("/root", "/rootless/a.py"), None);
    assert_eq!(relative_path("/root/sub", "/root"), None);
    assert_eq!(relative_path("/root", "/root"), None);
}
