use tag_normalizer::scan::{get_txt_files, is_candidate_file, is_excluded_dir, Entry};

fn file(n: &str) -> Entry {
    Entry::File(n.to_string())
}

fn dir(n: &str, kids: Vec<Entry>) -> Entry {
    Entry::Dir(n.to_string(), kids)
}

fn path(parts: &[&str]) -> Vec<String> {
    parts.iter().map(|s| s.to_string()).collect()
}

#[test]
fn scenario_d_git_subtree_skipped() {
    let root = dir("root", vec![dir(".git", vec![file("config.txt")]), file("notes.txt")]);
    assert_eq!(get_txt_files(&root), vec![path(&["root", "notes.txt"])]);
}

#[test]
fn scenario_e_sample_prompts_suffix_excluded() {
    let root = dir("root", vec![file("foo-sample-prompts.txt"), file("foo.txt")]);
    assert_eq!(get_txt_files(&root), vec![path(&["root", "foo.txt"])]);
    assert!(!is_candidate_file("foo-sample-prompts.txt"));
}

#[test]
fn sample_prompts_excluded_in_any_directory() {
    let root = dir(
        "r",
        vec![file("sample-prompts.txt"), dir("a", vec![dir("b", vec![file("sample-prompts.txt"), file("x-sample-prompts.txt")])])],
    );
    assert!(get_txt_files(&root).is_empty());
    assert!(!is_candidate_file("sample-prompts.txt"));
    assert!(is_candidate_file("sample-prompts.txt.txt"));
    assert!(is_candidate_file("samplex-prompts.txt"));
}

#[test]
fn git_anywhere_in_path_excluded() {
    let root = dir(
        "r",
        vec![dir("a", vec![dir(".git", vec![file("x.txt"), dir("b", vec![file("y.txt")])]), file("z.txt")])],
    );
    assert_eq!(get_txt_files(&root), vec![path(&["r", "a", "z.txt"])]);
    assert!(is_excluded_dir(".git"));
    assert!(!is_excluded_dir(".github"));
    assert!(!is_excluded_dir("git"));
}

#[test]
fn root_named_git_yields_nothing() {
    let root = dir(".git", vec![file("a.txt")]);
    assert!(get_txt_files(&root).is_empty());
}

#[test]
fn root_file_yields_nothing() {
    assert!(get_txt_files(&file("a.txt")).is_empty());
}

#[test]
fn extension_filter() {
    assert!(is_candidate_file("a.txt"));
    assert!(is_candidate_file("..txt"));
    assert!(!is_candidate_file(".txt"));
    assert!(!is_candidate_file("txt"));
    assert!(!is_candidate_file("notes"));
    assert!(!is_candidate_file("notes.TXT"));
    assert!(!is_candidate_file("notes.md"));
    assert!(!is_candidate_file("notes.txt.bak"));
    let root = dir("r", vec![file("notes"), file("a.md"), file(".txt"), file("b.txt")]);
    assert_eq!(get_txt_files(&root), vec![path(&["r", "b.txt"])]);
}

#[test]
fn nested_paths_in_listing_order() {
    let root = dir(
        "r",
        vec![file("1.txt"), dir("d", vec![file("2.txt"), dir("e", vec![file("3.txt")])]), file("4.txt")],
    );
    assert_eq!(
        get_txt_files(&root),
        vec![
            path(&["r", "1.txt"]),
            path(&["r", "d", "2.txt"]),
            path(&["r", "d", "e", "3.txt"]),
            path(&["r", "4.txt"]),
        ]
    );
}
