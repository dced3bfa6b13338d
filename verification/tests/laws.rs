use hermit::config::{config_path, Config, FsConfig};
use hermit::file_operations::FileOperations;
use hermit::fs::Error;
use hermit::fs::Filesystem;
use hermit::memfs::MemFs;
use hermit::paths::FsPath;

/// Splits a relative path on `/`, dropping `.` and empty pieces.
fn rel(s: &str) -> FsPath {
    let parts: Vec<String> = s
        .split('/')
        .filter(|p| !p.is_empty() && *p != ".")
        .map(|p| p.to_string())
        .collect();
    FsPath::from_parts(parts)
}

fn store_root(suffix: &str, shells: &[&str]) -> (MemFs, FsPath) {
    let mut fs = MemFs::new();
    let root = rel(suffix);
    fs.create_dir_all(&root).unwrap();
    fs.create_dir(&root.join(&rel("shells"))).unwrap();
    for shell in shells {
        fs.create_dir(&root.join(&rel("shells")).join(&rel(shell)))
            .unwrap();
    }
    (fs, root)
}

#[test]
fn set_then_reload_reads_the_same_name() {
    let (fs, root) = store_root("roundtrip", &["x"]);
    let mut config = FsConfig::new(fs, root.clone_path());
    assert!(config.current_shell_name().is_none());
    config.set_current_shell_name("x").unwrap();

    let reloaded = FsConfig::new(config.into_fs(), root);
    assert_eq!(reloaded.current_shell_name().unwrap(), "x");
}

#[test]
fn listing_is_sorted_and_skips_plain_files() {
    let (mut fs, root) = store_root("sorted-listing", &["zeta", "alpha", "mid"]);
    fs.write_file(&root.join(&rel("shells/notes.txt")), "not a shell")
        .unwrap();
    let config = FsConfig::new(fs, root);

    let listed = config.list_shells().unwrap();
    assert_eq!(listed, vec!["alpha", "mid", "zeta"]);
}

#[test]
fn listing_without_a_shells_directory_fails() {
    let mut fs = MemFs::new();
    let root = rel("no-shells-dir");
    fs.create_dir(&root).unwrap();
    let config = FsConfig::new(fs, root);

    let listed = config.list_shells();
    assert!(listed.is_err());
    assert!(listed.unwrap_err().is_io());
}

#[test]
fn listing_an_empty_shells_directory_is_empty() {
    let (fs, root) = store_root("empty-listing", &[]);
    let config = FsConfig::new(fs, root);

    let listed = config.list_shells().unwrap();
    assert!(listed.is_empty());
}

#[test]
fn walk_yields_relative_paths_only() {
    let (mut fs, root) = store_root("relative-walk", &["deep"]);
    let shell = root.join(&rel("shells/deep"));
    fs.create_dir_all(&shell.join(&rel("a/b"))).unwrap();
    fs.write_file(&shell.join(&rel("a/b/file1")), "").unwrap();
    fs.write_file(&config_path(&root), "deep").unwrap();
    let mut config = FsConfig::new(fs, root);

    let mut yielded: Vec<FsPath> = Vec::new();
    let mut iter = config.shell_files("deep").into_iter();
    while let Some(p) = iter.next() {
        yielded.push(p);
    }
    // Every yielded path is relative to the shell and the shell itself is
    // never yielded.
    for p in &yielded {
        assert!(p.len() >= 1);
    }
    // The walked file comes back as exactly a/b/file1, once.
    let hits = yielded.iter().filter(|p| **p == rel("a/b/file1")).count();
    assert_eq!(hits, 1);
    // The intermediate directories are walked too, also relative.
    assert!(yielded.contains(&rel("a")));
    assert!(yielded.contains(&rel("a/b")));
    assert_eq!(yielded.len(), 3);
}

#[test]
fn no_active_shell_walks_nothing() {
    let (fs, root) = store_root("no-active-walk", &["deep"]);
    let mut config = FsConfig::new(fs, root);
    let mut iter = config.shell_files("deep").into_iter();
    assert!(iter.next().is_none());
}

#[test]
fn chain_then_link_both_succeed_and_resolve() {
    let mut fs = MemFs::new();
    let root = rel("chain-link");
    fs.create_dir(&root).unwrap();
    let mut ops = FileOperations::rooted_at(root.clone_path());

    ops.create_dir_all(&rel("x/y/z"));
    ops.link(&rel("x/y/z"), &rel("alias"));
    let results = ops.commit(&mut fs);

    assert_eq!(results.len(), 2);
    assert!(results[0].is_ok());
    assert!(results[1].is_ok());
    // The alias resolves through to a directory: it holds x/y/z, read
    // relative to the alias's own directory, where x/y/z is a directory.
    let target = fs.link_target(&root.join(&rel("alias"))).unwrap();
    assert_eq!(target, rel("x/y/z"));
    assert!(fs.is_dir(&root.join(&target)));
}

#[test]
fn one_failed_operation_does_not_stop_the_batch() {
    let mut fs = MemFs::new();
    let root = rel("keep-going");
    fs.create_dir(&root).unwrap();
    let mut ops = FileOperations::rooted_at(root.clone_path());

    ops.create_dir(&rel("x/y/z"));
    ops.create_dir(&rel("survivor"));
    let results = ops.commit(&mut fs);

    assert_eq!(results.len(), 2);
    assert!(results[0].is_err());
    assert!(results[0].as_ref().unwrap_err().is_io());
    assert!(results[1].is_ok());
    assert!(fs.is_dir(&root.join(&rel("survivor"))));
}

#[test]
fn reinitialization_reports_a_repository_failure() {
    let mut fs = MemFs::new();
    let root = rel("reinit-kind");
    fs.create_dir(&root).unwrap();
    let mut ops = FileOperations::rooted_at(root.clone_path());

    ops.create_git_repo(&rel("."));
    ops.create_git_repo(&rel("."));
    let results = ops.commit(&mut fs);

    assert_eq!(results.len(), 2);
    assert!(results[0].is_ok());
    assert!(results[1].as_ref().unwrap_err().is_git2());
    assert!(fs.is_repo(&root));
}

#[test]
fn failure_kinds_stay_distinguishable() {
    let io = Error::IoError("mkdir refused".to_string());
    let git = Error::Git2Error("already a repository".to_string());
    assert!(io.is_io() && !io.is_git2());
    assert!(git.is_git2() && !git.is_io());
    assert_eq!(io.message(), "IO error: mkdir refused");
    assert_eq!(git.message(), "Git2 error: already a repository");
}

#[test]
fn set_active_shell_fails_without_a_root() {
    let fs = MemFs::new();
    // The store's root directory was never created, so the marker file
    // cannot be written; the cached name must stay as it was.
    let mut config = FsConfig::new(fs, rel("missing-root"));
    let r = config.set_current_shell_name("x");
    assert!(r.is_err());
    assert!(config.current_shell_name().is_none());
}
