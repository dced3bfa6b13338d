use hermit::config::{config_path, Config, FsConfig};
use hermit::fs::Filesystem;
use hermit::memfs::MemFs;
use hermit::paths::FsPath;

/// Splits a relative path on `/`, dropping `.` and empty pieces.
fn rel(s: &str) -> FsPath {
    let parts: Vec<String> = s
        .split('/')
        .filter(|p| !p.is_empty() && *p != ".")
        .map(|p| p.to_string())
        .collect();
    FsPath::from_parts(parts)
}

fn set_up(suffix: &str, current: &str, shells: &[&str]) -> (MemFs, FsPath) {
    let mut fs = MemFs::new();
    let test_root = rel(suffix);
    fs.create_dir_all(&test_root).unwrap();

    fs.write_file(&config_path(&test_root), current).unwrap();

    let shell_root = test_root.join(&rel("shells"));
    fs.create_dir(&shell_root).unwrap();
    for shell in shells {
        fs.create_dir(&shell_root.join(&rel(shell))).unwrap();
    }

    (fs, test_root)
}

#[test]
fn has_a_root_path() {
    let (fs, test_root) = set_up("root-path", "default", &["default"]);
    let config = FsConfig::new(fs, test_root.clone_path());
    assert_eq!(config.root_path(), &test_root);
}

#[test]
fn returns_the_current_shell_name() {
    let (fs, test_root) = set_up("current-shell-name", "current", &["current"]);
    let config = FsConfig::new(fs, test_root);

    assert_eq!(config.current_shell_name().unwrap(), "current".to_string());
}

#[test]
fn can_set_the_current_shell_name() {
    let (fs, test_root) = set_up("set-current-shell-name", "default", &["default"]);
    let mut config = FsConfig::new(fs, test_root.clone_path());
    config.set_current_shell_name("current").unwrap();

    let name_on_disk = config
        .fs()
        .read_file(&test_root.join(&rel("current_shell")))
        .unwrap();

    let current = "current".to_string();
    assert_eq!(config.current_shell_name().unwrap(), current);
    assert_eq!(name_on_disk, current);
}

#[test]
fn can_confirm_a_shell_exists() {
    let (fs, test_root) = set_up("confirm-shell-existence", "default", &["default", "other"]);
    let config = FsConfig::new(fs, test_root);

    assert!(config.shell_exists("other"));
}

#[test]
fn can_confirm_a_shell_does_not_exist() {
    let (fs, test_root) = set_up(
        "confirm-shell-non-existence",
        "default",
        &["default", "other"],
    );
    let config = FsConfig::new(fs, test_root);

    assert!(!config.shell_exists("another"));
}

#[test]
fn can_walk_a_directory() {
    let (mut fs, test_root) = set_up("walk-directory", "default", &["default"]);
    let shell_root = test_root.join(&rel("shells/default"));
    fs.write_file(&shell_root.join(&rel("file1")), "")
        .expect("Failed to create test file");
    let mut config = FsConfig::new(fs, test_root);

    let mut files: Vec<String> = Vec::new();
    let mut iter = config.shell_files("default").into_iter();
    while let Some(f) = iter.next() {
        files.push(
            f.parts()
                .iter()
                .map(|p| p.as_str())
                .collect::<Vec<&str>>()
                .join("/"),
        );
    }
    assert_eq!(files, vec!["file1"]);
}
