use rominator::sanitize::{sanitize_file_path, SafePath};

fn parts(name: &str) -> Vec<String> {
    sanitize_file_path(name).components().clone()
}

#[test]
fn plain_names_are_split_at_slashes() {
    assert_eq!(parts("docs/img/logo.png"), vec!["docs", "img", "logo.png"]);
    assert_eq!(parts("readme.txt"), vec!["readme.txt"]);
}

#[test]
fn backslashes_separate_too() {
    assert_eq!(parts("a\\b/c\\d.txt"), vec!["a", "b", "c", "d.txt"]);
}

#[test]
fn traversal_segments_are_dropped() {
    assert_eq!(parts("../../etc/passwd"), vec!["etc", "passwd"]);
    assert_eq!(parts("a/./b/../c"), vec!["a", "b", "c"]);
    assert_eq!(parts(".."), Vec::<String>::new());
    assert_eq!(parts("..\\..\\boot.ini"), vec!["boot.ini"]);
}

#[test]
fn absolute_prefixes_are_dropped() {
    assert_eq!(parts("/etc/passwd"), vec!["etc", "passwd"]);
    assert_eq!(parts("C:\\Windows\\system.ini"), vec!["C", "Windows", "system.ini"]);
    assert_eq!(parts("//server//share"), vec!["server", "share"]);
}

#[test]
fn reserved_characters_are_removed() {
    assert_eq!(parts("a<b>:c\"d|e?f*g.txt"), vec!["abcdefg.txt"]);
    assert_eq!(parts("dir?/fi:le"), vec!["dir", "file"]);
}

#[test]
fn empty_segments_are_dropped() {
    assert_eq!(parts(""), Vec::<String>::new());
    assert_eq!(parts("docs/"), vec!["docs"]);
    assert_eq!(parts("a//b/"), vec!["a", "b"]);
    assert_eq!(parts("?/:/x"), vec!["x"]);
}

#[test]
fn names_beyond_ascii_are_kept() {
    assert_eq!(parts("müsik/日本語.txt"), vec!["müsik", "日本語.txt"]);
}

#[test]
fn join_writes_the_path_below_the_directory() {
    assert_eq!(sanitize_file_path("docs/readme.txt").join("/out"), "/out/docs/readme.txt");
    assert_eq!(sanitize_file_path("../../x").join("/out"), "/out/x");
    assert_eq!(sanitize_file_path("").join("/out"), "/out");
}

#[test]
fn resolved_paths_stay_below_the_output_directory() {
    let names = ["../a", "/abs", "a/../../b", "..\\..\\w", "x/./y", "a:b/c*d", "....//....//z"];
    for name in names {
        let path = sanitize_file_path(name);
        let full = path.join("/out");
        assert!(full.starts_with("/out"));
        for part in path.components() {
            assert!(!part.is_empty());
            assert!(part != "." && part != "..");
            assert!(!part.contains('/') && !part.contains('\\'));
        }
    }
}

#[test]
fn prefix_and_comparison() {
    let p = sanitize_file_path("a/b/c");
    let q = sanitize_file_path("a\\b");
    assert_eq!(p.len(), 3);
    assert_eq!(*p.prefix(2).components(), vec!["a", "b"]);
    assert!(p.prefix(2).same(&q));
    assert!(!p.same(&q));
    assert!(p.starts_with(&q));
    assert!(!q.starts_with(&p));
    assert!(p.duplicate().same(&p));
    assert!(p.starts_with(&SafePath::root()));
}
