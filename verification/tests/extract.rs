use rominator::extract::{unzip_file, Entry, ExtractError, Plan, Step, Tree};
use rominator::sanitize::sanitize_file_path;

fn entries(names: &[&str]) -> Vec<Entry> {
    names
        .iter()
        .map(|n| Entry { name: String::from(*n), is_dir: n.ends_with('/') })
        .collect()
}

fn sorted(paths: &Vec<rominator::sanitize::SafePath>) -> Vec<String> {
    let mut all: Vec<String> = paths.iter().map(|p| p.join("/out")).collect();
    all.sort();
    all
}

fn shown(step: &Step) -> String {
    match step {
        Step::Nothing => String::from("nothing"),
        Step::CreateDir(p) => format!("dir {}", p.join("/out")),
        Step::WriteFile(p) => format!("file {}", p.join("/out")),
    }
}

fn steps_of(plan: &Plan) -> Vec<String> {
    plan.steps.iter().map(shown).collect()
}

#[test]
fn archive_with_directories_first() {
    let plan = unzip_file(&entries(&["docs/", "docs/readme.txt", "docs/img/logo.png"]));
    assert_eq!(plan.failure, None);
    assert_eq!(
        steps_of(&plan),
        vec!["dir /out/docs", "file /out/docs/readme.txt", "file /out/docs/img/logo.png"]
    );
    assert_eq!(sorted(&plan.tree.files), vec!["/out/docs/img/logo.png", "/out/docs/readme.txt"]);
    assert_eq!(sorted(&plan.tree.dirs), vec!["/out", "/out/docs", "/out/docs/img"]);
}

#[test]
fn any_order_gives_the_same_tree() {
    let orders: [&[&str]; 4] = [
        &["docs/", "docs/img/", "docs/readme.txt", "docs/img/logo.png"],
        &["docs/img/logo.png", "docs/readme.txt", "docs/img/", "docs/"],
        &["docs/readme.txt", "docs/", "docs/img/logo.png", "docs/img/"],
        &["docs/img/", "docs/img/logo.png", "docs/", "docs/readme.txt"],
    ];
    for order in orders {
        let plan = unzip_file(&entries(order));
        assert_eq!(plan.failure, None);
        assert_eq!(plan.steps.len(), 4);
        assert_eq!(sorted(&plan.tree.files), vec!["/out/docs/img/logo.png", "/out/docs/readme.txt"]);
        assert_eq!(sorted(&plan.tree.dirs), vec!["/out", "/out/docs", "/out/docs/img"]);
    }
}

#[test]
fn directory_listed_after_its_file_needs_nothing() {
    let plan = unzip_file(&entries(&["a/b.txt", "a/"]));
    assert_eq!(plan.failure, None);
    assert_eq!(steps_of(&plan), vec!["file /out/a/b.txt", "nothing"]);
}

#[test]
fn colliding_names_fail_at_the_second() {
    let plan = unzip_file(&entries(&["x/", "x/a?.txt", "x/b.txt", "x/a.txt", "x/c.txt"]));
    assert_eq!(plan.failure, Some(ExtractError::AlreadyExists));
    assert_eq!(steps_of(&plan), vec!["dir /out/x", "file /out/x/a.txt", "file /out/x/b.txt"]);
    assert_eq!(sorted(&plan.tree.files), vec!["/out/x/a.txt", "/out/x/b.txt"]);
}

#[test]
fn same_file_twice_fails() {
    let plan = unzip_file(&entries(&["a.txt", "a.txt"]));
    assert_eq!(plan.failure, Some(ExtractError::AlreadyExists));
    assert_eq!(plan.steps.len(), 1);
}

#[test]
fn file_where_a_directory_stands_fails() {
    let plan = unzip_file(&vec![
        Entry { name: String::from("a/"), is_dir: true },
        Entry { name: String::from("a"), is_dir: false },
    ]);
    assert_eq!(plan.failure, Some(ExtractError::AlreadyExists));
    assert_eq!(steps_of(&plan), vec!["dir /out/a"]);
}

#[test]
fn directory_where_a_file_stands_is_left_alone() {
    let plan = unzip_file(&vec![
        Entry { name: String::from("a"), is_dir: false },
        Entry { name: String::from("a/"), is_dir: true },
    ]);
    assert_eq!(plan.failure, None);
    assert_eq!(steps_of(&plan), vec!["file /out/a", "nothing"]);
    assert_eq!(sorted(&plan.tree.dirs), vec!["/out"]);
}

#[test]
fn entry_below_a_file_fails() {
    let plan = unzip_file(&entries(&["a", "a/b.txt"]));
    assert_eq!(plan.failure, Some(ExtractError::NotADirectory));
    assert_eq!(steps_of(&plan), vec!["file /out/a"]);
    let plan = unzip_file(&entries(&["a", "a/b/c/"]));
    assert_eq!(plan.failure, Some(ExtractError::NotADirectory));
}

#[test]
fn file_named_like_the_output_directory_fails() {
    let plan = unzip_file(&entries(&["ok.txt", "..", "later.txt"]));
    assert_eq!(plan.failure, Some(ExtractError::AlreadyExists));
    assert_eq!(steps_of(&plan), vec!["file /out/ok.txt"]);
}

#[test]
fn traversal_is_extracted_inside() {
    let plan = unzip_file(&entries(&["../../etc/passwd", "/root/.ssh/keys"]));
    assert_eq!(plan.failure, None);
    assert_eq!(sorted(&plan.tree.files), vec!["/out/etc/passwd", "/out/root/.ssh/keys"]);
    assert_eq!(sorted(&plan.tree.dirs), vec!["/out", "/out/etc", "/out/root", "/out/root/.ssh"]);
}

#[test]
fn empty_archive_needs_no_step() {
    let plan = unzip_file(&vec![]);
    assert_eq!(plan.failure, None);
    assert!(plan.steps.is_empty());
    assert!(plan.tree.files.is_empty());
    assert_eq!(sorted(&plan.tree.dirs), vec!["/out"]);
}

#[test]
fn tree_places_entries_one_by_one() {
    let mut tree = Tree::new();
    let dir = sanitize_file_path("a/b/");
    let file = sanitize_file_path("a/b/c.bin");
    assert!(!tree.is_dir(&dir));
    assert!(matches!(tree.place(dir.duplicate(), true), Ok(Step::CreateDir(_))));
    assert!(tree.is_dir(&dir));
    assert!(tree.is_dir(&dir.prefix(1)));
    assert!(matches!(tree.place(dir.duplicate(), true), Ok(Step::Nothing)));
    assert!(matches!(tree.place(file.duplicate(), false), Ok(Step::WriteFile(_))));
    assert!(tree.is_file(&file));
    assert!(!tree.is_dir(&file));
    assert!(matches!(tree.place(file.duplicate(), false), Err(ExtractError::AlreadyExists)));
    let below = sanitize_file_path("a/b/c.bin/d");
    assert!(tree.blocks(&below));
    assert!(!tree.blocks(&file));
    assert!(matches!(tree.place(below, true), Err(ExtractError::NotADirectory)));
    assert_eq!(tree.files.len(), 1);
}
