use rinit::catalog::{is_unit_file, unit_dirs};

#[test]
fn unit_directories_in_search_order() {
    assert_eq!(unit_dirs(), vec!["/usr/lib/rinit/units", "/etc/rinit/units"]);
}

#[test]
fn unit_file_names() {
    assert!(is_unit_file("nginx.service.toml"));
    assert!(is_unit_file("a.toml"));
    assert!(is_unit_file("..toml"));
    assert!(!is_unit_file(".toml"));
    assert!(!is_unit_file("toml"));
    assert!(!is_unit_file("a.tomlx"));
    assert!(!is_unit_file("a.TOML"));
    assert!(!is_unit_file("README"));
}
