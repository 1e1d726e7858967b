use std::path::Path;

use hintkit::generators::{
    dir_path, file_path, git_branches, package_json_scripts, resolve, sort_script_names, DirEntry, WorkingDir,
};
use hintkit::schema::GeneratorKind;

fn entry(name: &str, is_dir: bool) -> DirEntry {
    DirEntry { name: Some(name.to_string()), is_dir }
}

fn read(dir: &Path) -> Option<Vec<DirEntry>> {
    let read = dir.read_dir().ok()?;
    Some(
        read.flatten()
            .map(|e| DirEntry {
                name: e.file_name().to_str().map(|n| n.to_string()),
                is_dir: e.file_type().map(|t| t.is_dir()).unwrap_or(false),
            })
            .collect(),
    )
}

#[test]
fn file_path_lists_directory_contents() {
    let entries = Some(vec![entry("subdir", true), entry("beta.rs", false), entry("alpha.txt", false)]);
    let names = file_path(&entries);
    assert!(names.contains(&"alpha.txt".into()));
    assert!(names.contains(&"beta.rs".into()));
    assert!(names.contains(&"subdir".into()));
    assert_eq!(names, vec!["alpha.txt", "beta.rs", "subdir"]);
}

#[test]
fn dir_path_includes_only_directories() {
    let entries = Some(vec![entry("a-file", false), entry("a-dir", true)]);
    let names = dir_path(&entries);
    assert!(!names.contains(&"a-file".into()));
    assert!(names.contains(&"a-dir".into()));
}

#[test]
fn file_path_returns_empty_for_missing_dir() {
    let names = file_path(&read(Path::new("/tmp/this-path-definitely-does-not-exist-hintkit")));
    assert!(names.is_empty());
}

#[test]
fn package_json_scripts_returns_sorted_keys() {
    let text = r#"{ "name": "x", "scripts": { "test": "jest", "build": "tsc", "lint": "eslint ." } }"#;
    let names = package_json_scripts(&Some(text.to_string()));
    assert_eq!(names, vec!["build", "lint", "test"]);
}

#[test]
fn package_json_scripts_handles_missing_file() {
    assert!(package_json_scripts(&None).is_empty());
}

#[test]
fn package_json_scripts_handles_malformed_json() {
    assert!(package_json_scripts(&Some("this is not JSON".to_string())).is_empty());
}

#[test]
fn package_json_scripts_wants_an_object() {
    for text in ["[]", "{}", "1", r#"{"scripts": []}"#, r#"{"scripts": null}"#, r#"{"Scripts": {"a": 1}}"#] {
        assert!(package_json_scripts(&Some(text.to_string())).is_empty(), "{text}");
    }
    let odd = r#"{"scripts": {"b": 1, "a": null, "b": 2}}"#;
    assert_eq!(package_json_scripts(&Some(odd.to_string())), vec!["a", "b"]);
}

#[test]
fn script_names_are_sorted_bytewise() {
    let keys = Some(vec!["b".to_string(), "é".to_string(), "a:b".to_string(), "B".to_string(), "a".to_string()]);
    assert_eq!(sort_script_names(&keys), vec!["B", "a", "a:b", "b", "é"]);
    assert!(sort_script_names(&None).is_empty());
}

#[test]
fn git_branches_outside_a_repo_returns_empty() {
    // Outside a repository git prints nothing on its standard output.
    assert!(git_branches(&Some(String::new())).is_empty());
    assert!(git_branches(&None).is_empty());
}

#[test]
fn branch_names_are_trimmed_and_keep_their_order() {
    let output = "zeta\r\n\n  main \u{3000}\n\t\u{a0}\nfeature one\n* dev".to_string();
    let expected: Vec<String> =
        output.lines().map(|l| l.trim().to_string()).filter(|l| !l.is_empty()).collect();
    assert_eq!(expected, vec!["zeta", "main", "feature one", "* dev"]);
    assert_eq!(git_branches(&Some(output)), expected);
}

#[test]
fn white_space_is_what_std_trims() {
    for c in (0..=0x10ffffu32).filter_map(char::from_u32) {
        if c == '\n' {
            continue;
        }
        let kept = git_branches(&Some(c.to_string())).len();
        if c.is_whitespace() {
            assert_eq!(kept, 0, "{c:?}");
        } else {
            assert_eq!(kept, 1, "{c:?}");
        }
    }
}

#[test]
fn names_that_are_no_text_are_skipped() {
    let entries = Some(vec![DirEntry { name: None, is_dir: true }, entry("b", true), entry("a", false)]);
    assert_eq!(file_path(&entries), vec!["a", "b"]);
    assert_eq!(dir_path(&entries), vec!["b"]);
}

#[test]
fn every_kind_reads_its_own_input() {
    let cwd = WorkingDir {
        entries: Some(vec![entry("file", false), entry("dir", true)]),
        branch_output: Some("main\n".to_string()),
        package_json: Some(r#"{"scripts": {"start": "x"}}"#.to_string()),
    };
    assert_eq!(resolve(GeneratorKind::FilePath, &cwd), vec!["dir", "file"]);
    assert_eq!(resolve(GeneratorKind::DirPath, &cwd), vec!["dir"]);
    assert_eq!(resolve(GeneratorKind::GitBranches, &cwd), vec!["main"]);
    assert_eq!(resolve(GeneratorKind::PackageJsonScripts, &cwd), vec!["start"]);
    let nothing = WorkingDir { entries: None, branch_output: None, package_json: None };
    for kind in [
        GeneratorKind::FilePath,
        GeneratorKind::DirPath,
        GeneratorKind::GitBranches,
        GeneratorKind::PackageJsonScripts,
    ] {
        assert!(resolve(kind, &nothing).is_empty());
    }
}

#[test]
fn directories_keep_their_order_among_the_files() {
    let entries = Some(vec![
        entry("z", true),
        entry("m", false),
        entry("b", true),
        DirEntry { name: None, is_dir: true },
        entry("a", false),
    ]);
    assert_eq!(file_path(&entries), vec!["a", "b", "m", "z"]);
    assert_eq!(dir_path(&entries), vec!["b", "z"]);
}
