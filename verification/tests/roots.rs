use rad::root::{absolute, find_project_root, marker_files, parent_dir, RootNotFound};

fn files(list: &[&str]) -> Vec<String> {
    list.iter().map(|f| f.to_string()).collect()
}

#[test]
fn lock_file_is_a_hard_stop() {
    let existing = files(&["/w/Cargo.lock", "/w/Cargo.toml", "/w/a/Cargo.lock", "/w/a/Cargo.toml"]);
    assert_eq!(find_project_root("/w/a/src", &existing), Ok("/w/a".to_string()));
    assert_eq!(find_project_root("/w", &existing), Ok("/w".to_string()));
}

#[test]
fn outermost_manifest_is_the_workspace() {
    let existing = files(&["/w/Cargo.toml", "/w/a/Cargo.toml"]);
    assert_eq!(find_project_root("/w/a/src/b", &existing), Ok("/w".to_string()));
}

#[test]
fn lock_file_further_up_wins_over_a_manifest() {
    let existing = files(&["/w/Cargo.lock", "/w/a/Cargo.toml"]);
    assert_eq!(find_project_root("/w/a", &existing), Ok("/w".to_string()));
}

#[test]
fn pin_ends_the_search() {
    let existing = files(&["/Cargo.toml", "/w/.rad_root", "/w/a/Cargo.toml"]);
    assert_eq!(find_project_root("/w/a/src", &existing), Ok("/w/a".to_string()));
    let pinned = files(&["/Cargo.toml", "/w/.rad_root"]);
    assert_eq!(
        find_project_root("/w/a", &pinned),
        Err(RootNotFound { path: "/w/a".to_string() })
    );
}

#[test]
fn manifest_beside_the_pin_counts() {
    let existing = files(&["/w/.rad_root", "/w/Cargo.toml", "/w/a/Cargo.toml"]);
    assert_eq!(find_project_root("/w/a", &existing), Ok("/w".to_string()));
}

#[test]
fn nothing_tells_the_project() {
    let none: Vec<String> = Vec::new();
    assert_eq!(
        find_project_root("/w/a/", &none),
        Err(RootNotFound { path: "/w/a/".to_string() })
    );
}

#[test]
fn root_directory_can_be_a_project() {
    assert_eq!(find_project_root("/w", &files(&["/Cargo.toml"])), Ok("/".to_string()));
    assert_eq!(find_project_root("/", &files(&["/Cargo.lock"])), Ok("/".to_string()));
}

#[test]
fn trailing_separators_name_the_same_directory() {
    let existing = files(&["/w/a/Cargo.lock"]);
    assert_eq!(find_project_root("/w/a/", &existing), Ok("/w/a".to_string()));
    assert_eq!(find_project_root("/w/a/./", &existing), Ok("/w/a".to_string()));
}

#[test]
fn markers_of_every_level() {
    let mut markers = marker_files("/w/a");
    markers.sort();
    let mut expected = files(&[
        "/.rad_root",
        "/Cargo.lock",
        "/Cargo.toml",
        "/w/.rad_root",
        "/w/Cargo.lock",
        "/w/Cargo.toml",
        "/w/a/.rad_root",
        "/w/a/Cargo.lock",
        "/w/a/Cargo.toml",
    ]);
    expected.sort();
    assert_eq!(markers, expected);
}

#[test]
fn other_files_do_not_matter() {
    let existing = files(&["/w/a/Cargo.lock", "/w/a/b/c/Cargo.lock", "/w/Cargo.tom"]);
    let relevant = files(&["/w/a/Cargo.lock"]);
    assert_eq!(find_project_root("/w/a/b", &existing), find_project_root("/w/a/b", &relevant));
}

#[test]
fn parents_of_paths() {
    assert_eq!(parent_dir("/w/a"), Some("/w".to_string()));
    assert_eq!(parent_dir("/w//a//"), Some("/w".to_string()));
    assert_eq!(parent_dir("/w"), Some("/".to_string()));
    assert_eq!(parent_dir("/"), None);
}

#[test]
fn absolute_paths() {
    assert!(absolute("/"));
    assert!(absolute("/w"));
    assert!(!absolute("w"));
    assert!(!absolute(""));
    assert!(!absolute("./w"));
}
