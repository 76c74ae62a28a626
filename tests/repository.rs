use squealmate::entries::EntryStatus;
use squealmate::repository::{
    files_from, files_in, scripts_in_walk, scripts_in_walk_from, DirItem, Repository,
    RepositoryError, WalkItem,
};

#[test]
fn repository_path_success() {
    let path = ".tests/repository/success";
    let r = Repository::new(Some(path.to_string()), Ok(true));

    assert_eq!(true, r.is_ok());
    assert_eq!(String::from(path), r.unwrap().base_as_str())
}

#[test]
fn repository_path_does_not_exist() {
    let r = Repository::new(Some(".tests/repository/failure".to_string()), Ok(false));

    assert!(r.is_err());
    match r {
        Err(RepositoryError::DoesNotExist) => assert!(true),
        _ => assert!(false, "Expected RepositoryError::DoesNotExist"),
    }
}

#[test]
fn repository_path_is_not_utf8() {
    let r = Repository::new(None, Ok(true));

    assert_eq!(true, r.is_err());
    match r {
        Err(RepositoryError::NotUTF8) => assert!(true),
        _ => assert!(false, "Expected RepositoryError::NotUTF8"),
    }
}

#[test]
fn repository_path_relative() {
    let path = ".tests/repository/dir1";
    let r = Repository::new(Some(path.to_string()), Ok(true));

    assert_eq!(true, r.is_ok());

    let mut repository = r.unwrap();

    repository.open_directory("dir2");

    assert_eq!("/dir2", repository.current_relative_as_str())
}

#[test]
fn io_error_is_reported() {
    let r = Repository::new(Some("x".to_string()), Err("denied".to_string()));
    match r {
        Err(RepositoryError::IOError(d)) => assert_eq!("denied", d),
        _ => panic!("expected an I/O error"),
    }
}

#[test]
fn navigation_keeps_a_path_stack() {
    let mut repository = Repository::new(Some("root".to_string()), Ok(true)).unwrap();
    assert_eq!(None, repository.leave_directory());
    repository.open_directory("a");
    repository.open_directory("b");
    assert_eq!("root/a/b", repository.current_as_str());
    assert_eq!("/a/b", repository.current_relative_as_str());
    assert_eq!("a/b/x.sql", repository.child_path("x.sql"));
    assert_eq!(Some("b".to_string()), repository.leave_directory());
    assert_eq!("root/a", repository.current_as_str());
    let mut slash = Repository::new(Some("root/".to_string()), Ok(true)).unwrap();
    slash.open_directory("a");
    assert_eq!("root/a", slash.current_as_str());
    assert_eq!("a", slash.current_relative_as_str());
}

fn item(name: &str, is_dir: bool) -> DirItem {
    DirItem { name: name.to_string(), is_dir }
}

#[test]
fn listing_filters_and_sorts() {
    let mut repository = Repository::new(Some("root".to_string()), Ok(true)).unwrap();
    repository.open_directory("dir1");
    let entries = repository.list_entries(vec![
        item("b.sql", false),
        item("_skip.sql", false),
        item("notes.txt", false),
        item("sub", true),
        item(".git", true),
        item("a.sql", false),
        item(".sql", false),
    ]);
    let paths: Vec<&str> = entries.iter().map(|e| e.relative_path.as_str()).collect();
    assert_eq!(vec!["dir1/a.sql", "dir1/b.sql", "dir1/sub"], paths);
    assert!(entries[2].is_directory);
    assert_eq!(EntryStatus::Directory, entries[2].status);
    assert_eq!("a.sql", entries[0].name);

    assert_eq!(vec!["dir1/a.sql".to_string(), "dir1/b.sql".to_string()], files_in(&entries));
    assert_eq!(vec!["dir1/b.sql".to_string()], files_from(&entries, "b.sql"));
    assert!(files_from(&entries, "sub").is_empty());
    assert!(files_from(&entries, "missing.sql").is_empty());
}

fn walked(path: &str, names: &[&str], is_dir: bool) -> WalkItem {
    WalkItem {
        relative_path: path.to_string(),
        names: names.iter().map(|n| n.to_string()).collect(),
        is_dir,
    }
}

fn sample_walk() -> Vec<WalkItem> {
    vec![
        walked("", &[], true),
        walked("dir2", &["dir2"], true),
        walked("dir2/file2.sql", &["dir2", "file2.sql"], false),
        walked("dir3", &["dir3"], true),
        walked("dir3/.hidden", &["dir3", ".hidden"], true),
        walked("dir3/.hidden/h.sql", &["dir3", ".hidden", "h.sql"], false),
        walked("dir3/file3.sql", &["dir3", "file3.sql"], false),
        walked("dir3/file4.sql", &["dir3", "file4.sql"], false),
        walked("dir3/readme.md", &["dir3", "readme.md"], false),
        walked("file1.sql", &["file1.sql"], false),
    ]
}

#[test]
fn walk_keeps_visible_scripts() {
    assert_eq!(
        vec![
            "dir2/file2.sql".to_string(),
            "dir3/file3.sql".to_string(),
            "dir3/file4.sql".to_string(),
            "file1.sql".to_string()
        ],
        scripts_in_walk(&sample_walk())
    );
}

#[test]
fn walk_from_anchor() {
    let walk = sample_walk();
    assert_eq!(
        vec!["dir3/file4.sql".to_string(), "file1.sql".to_string()],
        scripts_in_walk_from(&walk, "dir3/file4.sql")
    );
    assert_eq!(4, scripts_in_walk_from(&walk, "dir2").len());
    assert!(scripts_in_walk_from(&walk, "dir3/.hidden/h.sql").is_empty());
    assert!(scripts_in_walk_from(&walk, "nowhere.sql").is_empty());
}

// The fixture tree `.tests/repository`, as a sorted depth-first walk would
// meet it:
//   dir1/dir2/file2.sql
//   dir1/dir3/file3.sql .. file6.sql
//   dir1/file1.sql
const FIXTURE: [&str; 11] = [
    "dir1",
    "dir1/dir2",
    "dir1/dir2/file2.sql",
    "dir1/dir3",
    "dir1/dir3/file3.sql",
    "dir1/dir3/file4.sql",
    "dir1/dir3/file5.sql",
    "dir1/dir3/file6.sql",
    "dir1/file1.sql",
    "success",
    "success/keep.txt",
];

fn is_fixture_dir(path: &str) -> bool {
    FIXTURE.iter().any(|p| p.starts_with(path) && p.len() > path.len() && p.as_bytes()[path.len()] == b'/')
}

/// The walk of fixture directory `start`, with paths relative to fixture
/// directory `base` (both given relative to `.tests/repository`).
fn fixture_walk(base: &str, start: &str) -> Vec<WalkItem> {
    let mut out = vec![WalkItem {
        relative_path: start.strip_prefix(base).unwrap_or(start).trim_start_matches('/').to_string(),
        names: vec![],
        is_dir: true,
    }];
    for p in FIXTURE.iter() {
        let prefix = if start.is_empty() { String::new() } else { format!("{}/", start) };
        if let Some(below) = p.strip_prefix(prefix.as_str()) {
            let base_prefix = if base.is_empty() { String::new() } else { format!("{}/", base) };
            out.push(WalkItem {
                relative_path: p.strip_prefix(base_prefix.as_str()).unwrap().to_string(),
                names: below.split('/').map(|s| s.to_string()).collect(),
                is_dir: is_fixture_dir(p),
            });
        }
    }
    out
}

/// The entries of fixture directory `dir`, as a directory read gives them.
fn fixture_dir(dir: &str) -> Vec<DirItem> {
    let prefix = format!("{}/", dir);
    FIXTURE
        .iter()
        .filter_map(|p| p.strip_prefix(prefix.as_str()))
        .filter(|rest| !rest.contains('/'))
        .map(|name| DirItem { name: name.to_string(), is_dir: is_fixture_dir(&format!("{}{}", prefix, name)) })
        .collect()
}

#[test]
fn repository_path_movement() {
    let path = ".tests/repository/dir1";
    let r = Repository::new(Some(path.to_string()), Ok(true));

    assert_eq!(true, r.is_ok());

    let mut repository = r.unwrap();
    assert_eq!(String::from(path), repository.base_as_str());

    let entries = repository.list_entries(fixture_dir("dir1"));
    assert_eq!(3, entries.len());

    repository.open_directory("dir2");
    let entries = repository.list_entries(fixture_dir("dir1/dir2"));
    assert_eq!(1, entries.len());

    repository.leave_directory();
    let entries = repository.list_entries(fixture_dir("dir1"));
    assert_eq!(3, entries.len());
}

#[test]
fn repository_getchildren_positive() {
    let path = ".tests/repository";
    let r = Repository::new(Some(path.to_string()), Ok(true));

    assert_eq!(true, r.is_ok());

    let children = scripts_in_walk(&fixture_walk("", "dir1"));
    assert_eq!(6, children.len());
}

#[test]
fn repository_getchildren_positive2() {
    let path = ".tests/repository/dir1";
    let r = Repository::new(Some(path.to_string()), Ok(true));

    assert_eq!(true, r.is_ok());

    let children = scripts_in_walk(&fixture_walk("dir1", "dir1/dir2"));
    assert_eq!(1, children.len());
    assert_eq!(vec!["dir2/file2.sql".to_string()], children);
}

#[test]
fn repository_getchildren_positive3() {
    let path = ".tests/repository/dir1";
    let r = Repository::new(Some(path.to_string()), Ok(true));

    assert_eq!(true, r.is_ok());

    let children = scripts_in_walk(&fixture_walk("dir1", "dir1/dir3"));
    assert_eq!(4, children.len());
}

#[test]
fn repository_select_all_after() {
    let path = ".tests/repository/dir1";
    let r = Repository::new(Some(path.to_string()), Ok(true));

    assert_eq!(true, r.is_ok());

    let mut repository = r.unwrap();

    repository.open_directory("dir3");

    let target = repository.child_path("file4.sql");
    let children = scripts_in_walk_from(&fixture_walk("dir1", "dir1"), &target);
    assert_eq!(4, children.len());
}

#[test]
fn repository_select_all_after2() {
    let path = ".tests/repository/dir1";
    let r = Repository::new(Some(path.to_string()), Ok(true));

    assert_eq!(true, r.is_ok());

    let mut repository = r.unwrap();

    repository.open_directory("dir2");

    let target = repository.child_path("file2.sql");
    let children = scripts_in_walk_from(&fixture_walk("dir1", "dir1"), &target);
    assert_eq!(6, children.len());
}

#[test]
fn repository_select_all_after3() {
    let path = ".tests/repository/dir1";
    let r = Repository::new(Some(path.to_string()), Ok(true));

    assert_eq!(true, r.is_ok());

    let mut repository = r.unwrap();

    repository.open_directory("dir3");

    let target = repository.child_path("file6.sql");
    let children = scripts_in_walk_from(&fixture_walk("dir1", "dir1"), &target);
    assert_eq!(2, children.len());
}
