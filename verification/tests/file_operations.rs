use hermit::file_operations::FileOperations;
use hermit::fs::Filesystem;
use hermit::memfs::MemFs;
use hermit::paths::FsPath;

/// Splits a relative path on `/`, dropping `.` and empty pieces.
fn rel(s: &str) -> FsPath {
    let parts: Vec<String> = s
        .split('/')
        .filter(|p| !p.is_empty() && *p != ".")
        .map(|p| p.to_string())
        .collect();
    FsPath::from_parts(parts)
}

fn set_up(suffix: &str) -> (MemFs, FsPath) {
    let mut fs = MemFs::new();
    let test_root = rel(suffix);
    fs.create_dir_all(&test_root).unwrap();
    (fs, test_root)
}

#[test]
fn can_link_file() {
    let (mut fs, test_root) = set_up("link");
    let mut file_set = FileOperations::rooted_at(test_root.clone_path());

    fs.write_file(&test_root.join(&rel("file_a")), "").unwrap();
    file_set.link(&rel("file_a"), &rel("file_b"));
    let results = file_set.commit(&mut fs);
    assert_eq!(results.len(), 1);
    assert!(results[0].is_ok());

    match fs.link_target(&test_root.join(&rel("file_b"))) {
        Some(_target) => (),
        None => panic!("{:?} does not exist", test_root.join(&rel("file_b"))),
    };
}

#[test]
fn can_remove_file() {
    let (mut fs, test_root) = set_up("unlink");
    let mut file_set = FileOperations::rooted_at(test_root.clone_path());

    // Create file to remove
    fs.write_file(&test_root.join(&rel("file_a")), "").unwrap();
    file_set.remove(&rel("file_a"));
    let results = file_set.commit(&mut fs);

    assert_eq!(results.len(), 1);
    assert!(results[0].is_ok());
    assert!(!fs.exists_at(&test_root.join(&rel("file_a"))));
}

#[test]
fn can_create_a_directory() {
    let (mut fs, test_root) = set_up("mkdir");
    let mut file_set = FileOperations::rooted_at(test_root.clone_path());

    assert!(!fs.is_dir(&test_root.join(&rel("test"))));
    file_set.create_dir(&rel("test"));
    assert!(!fs.is_dir(&test_root.join(&rel("test"))));
    let results = file_set.commit(&mut fs);
    assert_eq!(results.len(), 1);
    assert!(results[0].is_ok());
    assert!(fs.is_dir(&test_root.join(&rel("test"))));
}

#[test]
fn cannot_create_a_directory_in_a_nonexistent_path() {
    let (mut fs, test_root) = set_up("not-mkdir");
    let mut file_set = FileOperations::rooted_at(test_root.clone_path());

    assert!(!fs.is_dir(&test_root.join(&rel("test"))));
    let path = rel("test/one/two/three");
    file_set.create_dir(&path);
    assert!(!fs.is_dir(&test_root.join(&rel("test"))));
    let results = file_set.commit(&mut fs);
    assert_eq!(results.len(), 1);
    assert!(results[0].is_err());
    assert!(!fs.is_dir(&test_root.join(&rel("test"))));
}

#[test]
fn can_create_path_of_needed_directories() {
    let (mut fs, test_root) = set_up("mkdir-deep");
    let mut file_set = FileOperations::rooted_at(test_root.clone_path());

    assert!(!fs.is_dir(&test_root.join(&rel("test"))));
    let path = rel("test/one/two/three");
    file_set.create_dir_all(&path);
    assert!(!fs.is_dir(&test_root.join(&rel("test"))));
    let results = file_set.commit(&mut fs);
    assert_eq!(results.len(), 1);
    assert!(results[0].is_ok());
    assert!(fs.is_dir(&test_root.join(&rel("test"))));
}

#[test]
fn can_init_a_git_repo() {
    let (mut fs, test_root) = set_up("git");
    let mut file_set = FileOperations::rooted_at(test_root.clone_path());

    assert!(!fs.is_dir(&test_root.join(&rel(".git"))));
    file_set.create_git_repo(&rel("."));
    assert!(!fs.is_dir(&test_root.join(&rel(".git"))));
    let results = file_set.commit(&mut fs);
    assert_eq!(results.len(), 1);
    assert!(results[0].is_ok());
    assert!(fs.is_dir(&test_root.join(&rel(".git"))));
}

#[test]
fn can_init_a_git_repo_at_a_nonexistent_path() {
    let (mut fs, test_root) = set_up("git-deep");
    let mut file_set = FileOperations::rooted_at(test_root.clone_path());

    let path = rel("test/sub/repo");
    assert!(!fs.is_dir(&test_root.join(&path).join(&rel(".git"))));
    file_set.create_git_repo(&path);
    assert!(!fs.is_dir(&test_root.join(&path).join(&rel(".git"))));
    let results = file_set.commit(&mut fs);
    assert_eq!(results.len(), 1);
    assert!(results[0].is_ok());
    assert!(fs.is_dir(&test_root.join(&path).join(&rel(".git"))));
}

#[test]
fn wont_re_init_an_already_existing_repository() {
    let (mut fs, test_root) = set_up("git-re-init");
    let mut file_set = FileOperations::rooted_at(test_root.clone_path());

    file_set.create_git_repo(&rel("."));
    file_set.create_git_repo(&rel("."));

    let results = file_set.commit(&mut fs);
    assert_eq!(results.len(), 2);
    assert!(results[0].is_ok());
    assert!(results[1].is_err());
}
