use std::cell::Cell;

use hintkit::bundle::{spec_file_name, SpecDb};
use hintkit::engine::{command_name, compute_suggestions, expand, generator_needed, pending_generator, suggest};
use hintkit::generators::{DirEntry as Listed, WorkingDir};
use hintkit::matcher::{Suggestion, SuggestionKind};
use hintkit::schema::{ArgSpec, CommandSpec, GeneratorKind, OptionSpec};
use include_dir::{Dir, DirEntry, File};
use serde_json::Value;

const GIT: &str = r#"{
    "name": "git",
    "description": "the stupid content tracker",
    "options": [{ "names": ["--version"] }],
    "subcommands": [
        { "name": "add", "args": [{ "name": "path", "generator": "file_path" }] },
        { "name": "branch" },
        {
            "name": "checkout",
            "description": "Switch branches",
            "options": [{ "names": ["-b"], "args": [{ "name": "new-branch" }] }],
            "args": [{ "name": "branch", "description": "Branch to switch to", "generator": "git_branches" }]
        },
        { "name": "clone" },
        { "name": "commit", "options": [{ "names": ["--message", "-m"], "args": [{ "name": "message" }] }] },
        { "name": "diff" },
        { "name": "fetch" },
        { "name": "log" },
        { "name": "merge", "args": [{ "name": "branch", "generator": "git_branches" }] },
        { "name": "pull" },
        { "name": "push" },
        { "name": "status" }
    ]
}"#;

const NPM: &str = r#"{
    "name": "npm",
    "subcommands": [
        { "name": "run", "args": [{ "name": "script", "generator": "package_json_scripts" }] }
    ]
}"#;

const NESTED: &[DirEntry<'static>] =
    &[DirEntry::File(File::new("nested/deep.hintkitspec.json", b"{\"name\":\"deep\"}"))];

const ENTRIES: &[DirEntry<'static>] = &[
    DirEntry::File(File::new("git.hintkitspec.json", GIT.as_bytes())),
    DirEntry::File(File::new("README.md", b"not a spec")),
    DirEntry::Dir(Dir::new("nested", NESTED)),
    DirEntry::File(File::new("npm.hintkitspec.json", NPM.as_bytes())),
];

const BROKEN: &[DirEntry<'static>] = &[
    DirEntry::File(File::new("bad.hintkitspec.json", b"{ this is not JSON")),
    DirEntry::File(File::new("latin.hintkitspec.json", b"\xff\xfe")),
    DirEntry::Dir(Dir::new("folder.hintkitspec.json", &[])),
];

fn bundled() -> SpecDb {
    SpecDb::new(Dir::new("", ENTRIES))
}

fn list(v: &Value, key: &str) -> Vec<Value> {
    v.get(key).and_then(|x| x.as_array()).cloned().unwrap_or_default()
}

fn text(v: &Value, key: &str) -> Option<String> {
    v.get(key).and_then(|x| x.as_str()).map(|x| x.to_string())
}

fn arg(v: &Value) -> Option<ArgSpec> {
    let generator = match text(v, "generator") {
        None => None,
        Some(g) => match g.as_str() {
            "file_path" => Some(GeneratorKind::FilePath),
            "dir_path" => Some(GeneratorKind::DirPath),
            "git_branches" => Some(GeneratorKind::GitBranches),
            "package_json_scripts" => Some(GeneratorKind::PackageJsonScripts),
            _ => return None,
        },
    };
    Some(ArgSpec { name: text(v, "name")?, description: text(v, "description"), generator })
}

fn option(v: &Value) -> Option<OptionSpec> {
    Some(OptionSpec {
        names: list(v, "names").iter().map(|n| n.as_str().map(|s| s.to_string())).collect::<Option<Vec<_>>>()?,
        description: text(v, "description"),
        args: list(v, "args").iter().map(arg).collect::<Option<Vec<_>>>()?,
    })
}

fn command(v: &Value) -> Option<CommandSpec> {
    Some(CommandSpec {
        name: text(v, "name")?,
        description: text(v, "description"),
        subcommands: list(v, "subcommands").iter().map(command).collect::<Option<Vec<_>>>()?,
        options: list(v, "options").iter().map(option).collect::<Option<Vec<_>>>()?,
        args: list(v, "args").iter().map(arg).collect::<Option<Vec<_>>>()?,
    })
}

fn parse(json: &str) -> Option<CommandSpec> {
    command(&serde_json::from_str(json).ok()?)
}

fn nothing_known() -> WorkingDir {
    WorkingDir { entries: None, branch_output: None, package_json: None }
}

fn texts(suggestions: &[Suggestion]) -> Vec<&str> {
    suggestions.iter().map(|s| s.text.as_str()).collect()
}

#[test]
fn lookup_known_name_returns_parsed_spec() {
    let mut db = bundled();
    let git = db.lookup("git", parse).expect("git spec should be bundled");
    assert_eq!(git.name, "git");
    assert!(
        git.subcommands.iter().any(|sc| sc.name == "checkout"),
        "git spec should include `checkout` subcommand"
    );
}

#[test]
fn lookup_unknown_name_returns_none() {
    let mut db = bundled();
    assert!(db.lookup("definitely-not-a-real-command", parse).is_none());
}

#[test]
fn names_lists_every_bundled_spec() {
    let mut db = bundled();
    let names: Vec<String> = db.names();
    assert!(
        names.contains(&"git".to_string()),
        "expected `git` in bundled names; got: {names:?}"
    );
    // Every name listed must round-trip back to a successful lookup.
    for name in names {
        assert!(
            db.lookup(&name, parse).is_some(),
            "names() returned `{name}` but lookup() failed"
        );
    }
}

#[test]
fn lookup_is_cached() {
    let mut db = bundled();
    let first = db.lookup("git", parse).unwrap();
    let second = db.lookup("git", parse).unwrap();
    assert_eq!(first, second);
}

#[test]
fn every_bundled_spec_parses_cleanly() {
    let mut db = bundled();
    for name in db.names() {
        db.lookup(&name, parse)
            .unwrap_or_else(|| panic!("bundled spec {name} failed to parse"));
    }
}

#[test]
fn names_come_in_file_order_and_skip_other_files() {
    assert_eq!(bundled().names(), vec!["git", "npm"]);
    assert!(SpecDb::new(Dir::new("", &[])).names().is_empty());
    // Only files directly in the directory are listed, by their last component.
    let flat = SpecDb::new(Dir::new("nested", NESTED));
    assert_eq!(flat.names(), vec!["deep"]);
}

#[test]
fn odd_paths_are_listed_by_their_final_component() {
    const ODD: &[DirEntry<'static>] = &[
        DirEntry::File(File::new("a/b.hintkitspec.json", b"")),
        DirEntry::File(File::new("c.hintkitspec.json/", b"")),
        DirEntry::File(File::new("d.hintkitspec.json/.", b"")),
        DirEntry::File(File::new("e.hintkitspec.json/..", b"")),
        DirEntry::File(File::new(".", b"")),
        DirEntry::File(File::new("..", b"")),
        DirEntry::File(File::new("/", b"")),
        DirEntry::File(File::new("", b"")),
        DirEntry::File(File::new(".hintkitspec.json", b"")),
        DirEntry::File(File::new("f.hintkitspec.jso", b"")),
    ];
    let std_names: Vec<String> = ODD
        .iter()
        .filter_map(|e| e.path().file_name())
        .filter_map(|n| n.to_str())
        .filter_map(|n| n.strip_suffix(".hintkitspec.json"))
        .map(|n| n.to_string())
        .collect();
    let names = SpecDb::new(Dir::new("", ODD)).names();
    assert_eq!(names, vec!["b", "c", "d", ""]);
    assert_eq!(names, std_names);
}

#[test]
fn a_file_in_a_subdirectory_is_found_by_its_path() {
    let mut db = bundled();
    assert_eq!(db.lookup("nested/deep", parse).unwrap().name, "deep");
    assert!(db.lookup("deep", parse).is_none());
}

#[test]
fn a_found_spec_is_never_parsed_again() {
    let calls = Cell::new(0);
    let counting = |json: &str| {
        calls.set(calls.get() + 1);
        parse(json)
    };
    let mut db = bundled();
    assert!(db.cached("npm").is_none());
    db.lookup("npm", &counting).unwrap();
    db.lookup("npm", &counting).unwrap();
    assert_eq!(calls.get(), 1);
    assert_eq!(db.cached("npm").unwrap().name, "npm");
    // Not even a parser that has given up changes what is found.
    assert!(db.lookup("npm", |_: &str| None).is_some());
    // Another name is not touched.
    assert!(db.cached("git").is_none());
}

#[test]
fn a_failed_parse_finds_nothing_and_is_tried_again() {
    let calls = Cell::new(0);
    let failing = |json: &str| {
        calls.set(calls.get() + 1);
        parse(json)
    };
    let mut db = SpecDb::new(Dir::new("", BROKEN));
    assert!(db.lookup("bad", &failing).is_none());
    assert!(db.lookup("bad", &failing).is_none());
    assert_eq!(calls.get(), 2);
    assert!(db.cached("bad").is_none());
}

#[test]
fn what_is_no_text_file_is_not_parsed() {
    let mut db = SpecDb::new(Dir::new("", BROKEN));
    let never = |_: &str| -> Option<CommandSpec> { panic!("parsed") };
    assert!(db.lookup("latin", never).is_none());
    assert!(db.lookup("folder", never).is_none());
    assert!(db.lookup("missing", never).is_none());
    assert_eq!(db.source("bad"), Some("{ this is not JSON"));
    assert_eq!(db.source("latin"), None);
}

#[test]
fn accepting_a_parse_keeps_it() {
    let mut db = SpecDb::new(Dir::new("", &[]));
    assert!(db.accept("x", None).is_none());
    assert!(db.cached("x").is_none());
    let spec = parse(NPM);
    assert_eq!(db.accept("x", spec.clone()), spec);
    assert_eq!(db.cached("x"), spec);
    assert_eq!(spec_file_name("git"), "git.hintkitspec.json");
}

#[test]
fn compute_suggestions_against_bundled_git_spec() {
    let mut db = bundled();
    let cwd = nothing_known();

    // `git c` — should suggest subcommands starting with c (checkout,
    // commit, clone, …).
    let suggestions = compute_suggestions(&mut db, "git c", 5, &cwd, parse);
    let names: Vec<&str> = suggestions.iter().map(|s| s.text.as_str()).collect();
    assert!(
        names.contains(&"checkout"),
        "expected `checkout` in suggestions for `git c`, got {names:?}"
    );
    assert!(
        names.contains(&"commit"),
        "expected `commit` in suggestions for `git c`, got {names:?}"
    );

    // `git ` (trailing space) — should suggest *all* subcommands.
    let suggestions = compute_suggestions(&mut db, "git ", 4, &cwd, parse);
    assert!(
        suggestions.len() > 10,
        "git's bundled spec has >10 subcommands; got {} suggestions",
        suggestions.len()
    );
}

#[test]
fn compute_suggestions_unknown_command_yields_empty() {
    let mut db = bundled();
    let cwd = nothing_known();
    let suggestions = compute_suggestions(&mut db, "this-tool-does-not-exist ", 25, &cwd, parse);
    assert!(suggestions.is_empty());
}

#[test]
fn a_line_without_a_command_brings_nothing() {
    let mut db = bundled();
    assert!(compute_suggestions(&mut db, "", 0, &nothing_known(), parse).is_empty());
    assert!(compute_suggestions(&mut db, "  \t", 2, &nothing_known(), parse).is_empty());
    assert_eq!(command_name("  git  push"), Some("git"));
    assert_eq!(command_name(" \t "), None);
}

#[test]
fn generated_values_replace_their_placeholder() {
    let mut db = bundled();
    let cwd = WorkingDir {
        entries: None,
        branch_output: Some("main\n  feature/one\n\nfix\n".to_string()),
        package_json: None,
    };
    assert_eq!(pending_generator(&mut db, "git checkout ", 13, parse), Some(GeneratorKind::GitBranches));
    let all = compute_suggestions(&mut db, "git checkout ", 13, &cwd, parse);
    assert_eq!(texts(&all), vec!["main", "feature/one", "fix"]);
    assert!(all.iter().all(|s| s.kind == SuggestionKind::StaticArg));
    assert!(all.iter().all(|s| s.description.as_deref() == Some("Branch to switch to")));
    let some = compute_suggestions(&mut db, "git checkout f", 14, &cwd, parse);
    assert_eq!(texts(&some), vec!["feature/one", "fix"]);
    assert!(compute_suggestions(&mut db, "git checkout ", 13, &nothing_known(), parse).is_empty());
}

#[test]
fn scripts_are_suggested_for_npm_run() {
    let mut db = bundled();
    let cwd = WorkingDir {
        entries: None,
        branch_output: None,
        package_json: Some(r#"{"scripts": {"test": "x", "build": "y", "bench": "z"}}"#.to_string()),
    };
    assert_eq!(pending_generator(&mut db, "npm run b", 9, parse), Some(GeneratorKind::PackageJsonScripts));
    let found = compute_suggestions(&mut db, "npm run b", 9, &cwd, parse);
    assert_eq!(texts(&found), vec!["bench", "build"]);
}

#[test]
fn no_generator_is_pending_where_names_are_expected() {
    let mut db = bundled();
    assert_eq!(pending_generator(&mut db, "git ", 4, parse), None);
    assert_eq!(pending_generator(&mut db, "nope ", 5, parse), None);
    assert_eq!(pending_generator(&mut db, "", 0, parse), None);
    let git = parse(GIT).unwrap();
    assert_eq!(generator_needed(&git, "git add ", 8), Some(GeneratorKind::FilePath));
    assert_eq!(generator_needed(&git, "git commit -m ", 14), None);
}

#[test]
fn suggestions_are_capped() {
    let names: Vec<Listed> = (0..40)
        .map(|i| Listed { name: Some(format!("file{:02}", 39 - i)), is_dir: false })
        .collect();
    let cwd = WorkingDir { entries: Some(names), branch_output: None, package_json: None };
    let git = parse(GIT).unwrap();
    let found = suggest(&git, "git add ", 8, &cwd);
    assert_eq!(found.len(), 16);
    assert_eq!(found[0].text, "file00");
    assert_eq!(found[15].text, "file15");
    let narrowed = suggest(&git, "git add file3", 13, &cwd);
    assert_eq!(narrowed.len(), 10);
    assert_eq!(narrowed[9].text, "file39");
}

#[test]
fn suggestions_are_ranked_before_the_cap() {
    let many = CommandSpec {
        name: "tool".to_string(),
        description: None,
        subcommands: (0..20)
            .map(|i| CommandSpec {
                name: format!("sub{:02}", 19 - i),
                description: None,
                subcommands: vec![],
                options: vec![],
                args: vec![],
            })
            .collect(),
        options: vec![],
        args: vec![],
    };
    let found = suggest(&many, "tool ", 5, &nothing_known());
    assert_eq!(found.len(), 16);
    assert_eq!(found[0].text, "sub00");
    assert_eq!(found[15].text, "sub15");
}

#[test]
fn expansion_keeps_what_is_no_placeholder() {
    let raw = vec![
        Suggestion { text: "one".to_string(), description: None, kind: SuggestionKind::Subcommand },
        Suggestion {
            text: "<dir>".to_string(),
            description: Some("a directory".to_string()),
            kind: SuggestionKind::GeneratedValue(GeneratorKind::DirPath),
        },
        Suggestion { text: "<name>".to_string(), description: None, kind: SuggestionKind::StaticArg },
    ];
    let cwd = WorkingDir {
        entries: Some(vec![
            Listed { name: Some("src".to_string()), is_dir: true },
            Listed { name: Some("a.txt".to_string()), is_dir: false },
            Listed { name: None, is_dir: true },
            Listed { name: Some("app".to_string()), is_dir: true },
        ]),
        branch_output: None,
        package_json: None,
    };
    let found = expand(&raw, "", &cwd);
    assert_eq!(texts(&found), vec!["one", "app", "src", "<name>"]);
    assert_eq!(found[1].description.as_deref(), Some("a directory"));
    assert_eq!(texts(&expand(&raw, "s", &cwd)), vec!["one", "src", "<name>"]);
}

#[test]
fn every_listed_name_is_found_on_every_lookup() {
    let mut db = bundled();
    let names = db.names();
    let mut distinct = names.clone();
    distinct.sort();
    distinct.dedup();
    assert_eq!(distinct.len(), names.len());
    let first: Vec<Option<CommandSpec>> = names.iter().map(|n| db.lookup(n, parse)).collect();
    assert!(first.iter().all(|spec| spec.is_some()));
    db.lookup("missing", parse);
    let again: Vec<Option<CommandSpec>> = names.iter().map(|n| db.lookup(n, |_: &str| None)).collect();
    assert_eq!(again, first);
}
