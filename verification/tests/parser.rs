use hintkit::context::{parse_context, Expecting};
use hintkit::matcher::{match_suggestions, SuggestionKind};
use hintkit::schema::{ArgSpec, CommandSpec, GeneratorKind, OptionSpec};
use hintkit::tokens::{tokenize, CursorPlacement, Tokenized};

#[test]
fn tokenize_empty_line() {
    let t = tokenize("", 0);
    assert!(t.tokens.is_empty());
    assert_eq!(t.cursor, CursorPlacement::BetweenTokens);
}

#[test]
fn tokenize_single_word_cursor_at_end() {
    let t = tokenize("git", 3);
    assert_eq!(t.tokens.len(), 1);
    assert_eq!(t.tokens[0].text, "git");
    assert_eq!(t.cursor, CursorPlacement::InToken { index: 0 });
}

#[test]
fn tokenize_trailing_space_means_between() {
    let t = tokenize("git ", 4);
    assert_eq!(t.tokens.len(), 1);
    assert_eq!(t.cursor, CursorPlacement::BetweenTokens);
}

#[test]
fn tokenize_partial_subcommand() {
    let t = tokenize("git che", 7);
    assert_eq!(t.tokens.len(), 2);
    assert_eq!(t.tokens[1].text, "che");
    assert_eq!(t.cursor, CursorPlacement::InToken { index: 1 });
}

#[test]
fn cursor_out_of_range_clamps() {
    let t = tokenize("git", 9999);
    assert_eq!(t.cursor, CursorPlacement::InToken { index: 0 });
}

fn git_spec() -> CommandSpec {
    CommandSpec {
        name: "git".into(),
        description: Some("the stupid content tracker".into()),
        subcommands: vec![
            CommandSpec {
                name: "checkout".into(),
                description: Some("Switch branches".into()),
                subcommands: vec![],
                options: vec![OptionSpec {
                    names: vec!["-b".into()],
                    description: Some("Create and switch to a new branch".into()),
                    args: vec![ArgSpec {
                        name: "new-branch".into(),
                        description: None,
                        generator: None,
                    }],
                }],
                args: vec![ArgSpec {
                    name: "branch".into(),
                    description: None,
                    generator: Some(GeneratorKind::GitBranches),
                }],
            },
            CommandSpec {
                name: "commit".into(),
                description: Some("Record changes".into()),
                subcommands: vec![],
                options: vec![OptionSpec {
                    names: vec!["--message".into(), "-m".into()],
                    description: None,
                    args: vec![ArgSpec {
                        name: "message".into(),
                        description: None,
                        generator: None,
                    }],
                }],
                args: vec![],
            },
        ],
        options: vec![OptionSpec {
            names: vec!["--version".into()],
            description: None,
            args: vec![],
        }],
        args: vec![],
    }
}

#[test]
fn parse_context_at_bare_command_expects_subcommand() {
    let g = git_spec();
    let t = tokenize("git ", 4);
    let ctx = parse_context(&t, &g);
    assert!(matches!(ctx.expecting, Expecting::SubcommandOrOption));
    assert_eq!(ctx.spec_path.len(), 1);
}

#[test]
fn parse_context_descends_into_subcommand() {
    let g = git_spec();
    let t = tokenize("git checkout ", 13);
    let ctx = parse_context(&t, &g);
    // Past `checkout`, the next slot is the `branch` arg.
    match ctx.expecting {
        Expecting::ArgValue(a) => assert_eq!(a.name, "branch"),
        other => panic!("expected ArgValue(branch), got {other:?}"),
    }
    assert_eq!(ctx.spec_path.len(), 2);
    assert_eq!(ctx.spec_path.last().unwrap().name, "checkout");
}

#[test]
fn parse_context_recognizes_option_value_slot() {
    let g = git_spec();
    // After `git commit -m `, expecting the message value.
    let t = tokenize("git commit -m ", 14);
    let ctx = parse_context(&t, &g);
    match ctx.expecting {
        Expecting::OptionValue(o) => assert!(o.names.contains(&"-m".to_string())),
        other => panic!("expected OptionValue, got {other:?}"),
    }
}

#[test]
fn parse_context_partial_subcommand_in_token() {
    let g = git_spec();
    let t = tokenize("git che", 7);
    let ctx = parse_context(&t, &g);
    // We're typing the subcommand, so `current_spec` is still git.
    assert_eq!(ctx.current_spec().unwrap().name, "git");
    assert!(matches!(ctx.expecting, Expecting::SubcommandOrOption));
}

#[test]
fn parse_context_partial_option() {
    let g = git_spec();
    let t = tokenize("git --ver", 9);
    let ctx = parse_context(&t, &g);
    assert!(matches!(ctx.expecting, Expecting::Option));
}

#[test]
fn parse_context_unknown_command_yields_done() {
    let g = git_spec();
    let t = tokenize("nope something", 14);
    let ctx = parse_context(&t, &g);
    assert!(matches!(ctx.expecting, Expecting::Done));
    assert!(ctx.spec_path.is_empty());
}

#[test]
fn match_subcommands_filters_by_prefix() {
    let g = git_spec();
    let t = tokenize("git c", 5);
    let ctx = parse_context(&t, &g);
    let suggestions = match_suggestions(&ctx, "c");
    let names: Vec<&str> = suggestions.iter().map(|s| s.text.as_str()).collect();
    assert!(names.contains(&"checkout"));
    assert!(names.contains(&"commit"));
}

#[test]
fn match_empty_prefix_includes_all_subcommands() {
    let g = git_spec();
    let t = tokenize("git ", 4);
    let ctx = parse_context(&t, &g);
    let suggestions = match_suggestions(&ctx, "");
    assert_eq!(suggestions.len(), 3); // checkout, commit, --version
}

#[test]
fn match_arg_value_uses_generator_kind() {
    let g = git_spec();
    let t = tokenize("git checkout ", 13);
    let ctx = parse_context(&t, &g);
    let suggestions = match_suggestions(&ctx, "");
    assert_eq!(suggestions.len(), 1);
    assert!(matches!(
        suggestions[0].kind,
        SuggestionKind::GeneratedValue(GeneratorKind::GitBranches)
    ));
}

#[test]
fn rank_puts_prefix_matches_first() {
    let g = git_spec();
    let t = tokenize("git ch", 6);
    let ctx = parse_context(&t, &g);
    let suggestions = match_suggestions(&ctx, "ch");
    assert_eq!(suggestions[0].text, "checkout");
}

fn names(line: &str, cursor: usize, root: &CommandSpec) -> Vec<String> {
    let t = tokenize(line, cursor);
    let ctx = parse_context(&t, root);
    let prefix = t.cursor_prefix(line);
    match_suggestions(&ctx, prefix).into_iter().map(|s| s.text).collect()
}

#[test]
fn tokens_are_the_runs_between_white_space() {
    let t = tokenize("\t git  che\x0cckout\r\né ", 5);
    let found: Vec<(&str, usize, usize)> = t.tokens.iter().map(|t| (t.text, t.start, t.end)).collect();
    assert_eq!(found, vec![("git", 2, 5), ("che", 7, 10), ("ckout", 11, 16), ("é", 18, 20)]);
    // Right behind a word, a cursor with white space under it has left the word.
    assert_eq!(t.cursor, CursorPlacement::BetweenTokens);
    assert_eq!(tokenize("git st", 2).cursor, CursorPlacement::InToken { index: 0 });
    assert_eq!(tokenize("git st", 4).cursor, CursorPlacement::InToken { index: 1 });
    assert_eq!(tokenize("git  st", 4).cursor, CursorPlacement::BetweenTokens);
}

#[test]
fn the_prefix_is_the_whole_word_under_the_cursor() {
    let t = tokenize("git checkout", 6);
    assert_eq!(t.cursor_prefix("git checkout"), "checkout");
    let between = tokenize("git ", 4);
    assert_eq!(between.cursor_prefix("git "), "");
}

#[test]
fn options_are_offered_for_a_dash_and_for_nothing() {
    let g = git_spec();
    assert_eq!(names("git ", 4, &g), vec!["--version", "checkout", "commit"]);
    assert_eq!(names("git -", 5, &g), vec!["--version"]);
    assert_eq!(names("git c", 5, &g), vec!["checkout", "commit"]);
    assert!(names("git x", 5, &g).is_empty());
    assert_eq!(names("git commit -", 12, &g), vec!["--message", "-m"]);
}

#[test]
fn an_option_value_brings_its_placeholder() {
    let g = git_spec();
    assert_eq!(names("git commit -m ", 14, &g), vec!["<message>"]);
    assert_eq!(names("git checkout -b ", 16, &g), vec!["<new-branch>"]);
    assert_eq!(names("git checkout ma", 15, &g), vec!["<branch>"]);
    assert!(names("nope ", 5, &g).is_empty());
}

#[test]
fn equal_texts_keep_the_order_of_the_spec() {
    let mut g = git_spec();
    g.subcommands[0].name = "same".into();
    g.subcommands[1].name = "same".into();
    let t = tokenize("git s", 5);
    let ctx = parse_context(&t, &g);
    let found: Vec<Option<String>> = match_suggestions(&ctx, "s").into_iter().map(|s| s.description).collect();
    assert_eq!(found, vec![Some("Switch branches".to_string()), Some("Record changes".to_string())]);
}

fn leaf(name: &str) -> CommandSpec {
    CommandSpec { name: name.into(), description: None, subcommands: vec![], options: vec![], args: vec![] }
}

#[test]
fn past_the_last_slot_nothing_is_expected() {
    let pwd = leaf("pwd");
    let t = tokenize("pwd ", 4);
    let ctx = parse_context(&t, &pwd);
    assert_eq!(ctx.expecting, Expecting::Done);
    assert_eq!(ctx.spec_path.len(), 1);
    assert!(match_suggestions(&ctx, "").is_empty());

    let mut cd = leaf("cd");
    cd.args.push(ArgSpec { name: "dir".into(), description: None, generator: None });
    let t = tokenize("cd ", 3);
    assert!(matches!(parse_context(&t, &cd).expecting, Expecting::ArgValue(_)));
    let t = tokenize("cd here ", 8);
    assert_eq!(parse_context(&t, &cd).expecting, Expecting::Done);
    // A flag is still a flag, and a spec with options still offers them.
    let t = tokenize("pwd -", 5);
    assert_eq!(parse_context(&t, &pwd).expecting, Expecting::Option);
    cd.options.push(OptionSpec { names: vec!["-P".into()], description: None, args: vec![] });
    let t = tokenize("cd here ", 8);
    assert_eq!(parse_context(&t, &cd).expecting, Expecting::SubcommandOrOption);
}

#[test]
fn a_cursor_without_its_token_matters_only_where_there_is_a_command() {
    let g = git_spec();
    let none = Tokenized { tokens: vec![], cursor: CursorPlacement::InToken { index: 3 } };
    assert_eq!(parse_context(&none, &g).expecting, Expecting::SubcommandOrOption);
    let mut other = tokenize("nope", 4);
    other.cursor = CursorPlacement::InToken { index: 7 };
    assert_eq!(parse_context(&other, &g).expecting, Expecting::Done);
}

#[test]
fn words_behind_the_cursor_do_not_matter() {
    let g = git_spec();
    assert_eq!(names("git c", 4, &g), vec!["checkout", "commit"]);
    assert_eq!(names("git c", 4, &g), names("git c commit -m x", 4, &g));
    assert_eq!(names("git checkout ma", 13, &g), names("git checkout ma -b zz", 13, &g));
}

#[test]
fn a_longer_prefix_only_narrows() {
    let mut g = git_spec();
    // An option without a dash is offered only while nothing is typed.
    g.options.push(OptionSpec { names: vec!["cat".into()], description: None, args: vec![] });
    let t = tokenize("git ", 4);
    let ctx = parse_context(&t, &g);
    let texts = |prefix: &str| -> Vec<String> {
        match_suggestions(&ctx, prefix).into_iter().map(|s| s.text).collect()
    };
    assert_eq!(texts(""), vec!["--version", "cat", "checkout", "commit"]);
    assert_eq!(texts("c"), vec!["checkout", "commit"]);
    assert_eq!(texts("co"), vec!["commit"]);
    assert_eq!(texts("--"), vec!["--version"]);
}
