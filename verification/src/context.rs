//! Walking the tokens of a command line against a completion spec to find out
//! what the cursor's position logically expects.

use vstd::prelude::*;

use crate::schema;
use crate::schema::{ArgSpec, ArgView, CommandSpec, CommandView, OptionSpec, OptionView};
use crate::text;
use crate::tokens::{CursorPlacement, Tokenized};

verus! {

broadcast use vstd::seq_lib::group_seq_properties;

/// What the cursor's logical position expects next.
#[derive(Debug, Clone, PartialEq, Eq)]
pub enum Expecting<'a> {
    /// At a position where a subcommand or an option flag could begin.
    SubcommandOrOption,
    /// In the middle of typing an option flag (token starts with `-`).
    Option,
    /// Providing a value for a specific option (e.g. `-m <here>`).
    OptionValue(&'a OptionSpec),
    /// Providing a positional argument value.
    ArgValue(&'a ArgSpec),
    /// Past the last expected slot: the spec has no further structure to drive
    /// completion.
    Done,
}

/// The result of walking the tokens against a spec.
#[derive(Debug, Clone)]
pub struct ParseContext<'a> {
    /// The chain of specs we've descended into, root first. For
    /// `git checkout`, this is `[git_spec, checkout_subcommand]`.
    pub spec_path: Vec<&'a CommandSpec>,
    pub expecting: Expecting<'a>,
}

/// What an [`Expecting`] stands for.
pub enum ExpectingView {
    SubcommandOrOption,
    Option,
    OptionValue(OptionView),
    ArgValue(ArgView),
    Done,
}

/// What a [`ParseContext`] stands for.
pub struct ContextView {
    pub path: Seq<CommandView>,
    pub expecting: ExpectingView,
}

impl<'a> View for Expecting<'a> {
    type V = ExpectingView;

    open spec fn view(&self) -> ExpectingView {
        match *self {
            Expecting::SubcommandOrOption => ExpectingView::SubcommandOrOption,
            Expecting::Option => ExpectingView::Option,
            Expecting::OptionValue(o) => ExpectingView::OptionValue(o@),
            Expecting::ArgValue(a) => ExpectingView::ArgValue(a@),
            Expecting::Done => ExpectingView::Done,
        }
    }
}

/// What the specs of a path stand for.
pub open spec fn path_views(path: Seq<&CommandSpec>) -> Seq<CommandView> {
    path.map_values(|c: &CommandSpec| c@)
}

impl<'a> View for ParseContext<'a> {
    type V = ContextView;

    open spec fn view(&self) -> ContextView {
        ContextView { path: path_views(self.spec_path@), expecting: self.expecting@ }
    }
}

/// The first element from `i` on that satisfies `p`.
pub open spec fn first_where<A>(s: Seq<A>, p: spec_fn(A) -> bool, i: int) -> Option<A>
    decreases s.len() - i,
{
    if 0 <= i < s.len() {
        if p(s[i]) {
            Some(s[i])
        } else {
            first_where(s, p, i + 1)
        }
    } else {
        None
    }
}

/// The option of `c` that `token` spells: the first that lists it among its names.
pub open spec fn option_named(c: CommandView, token: Seq<char>) -> Option<OptionView> {
    first_where(c.options, |o: OptionView| o.names.contains(token), 0)
}

/// The subcommand of `c` that `token` names: the first of that name.
pub open spec fn subcommand_named(c: CommandView, token: Seq<char>) -> Option<CommandView> {
    first_where(c.subcommands, |s: CommandView| s.name == token, 0)
}

/// The option whose value must follow `token`: `token` is a flag that `c` knows
/// and that takes a value.
pub open spec fn awaits_value(c: CommandView, token: Seq<char>) -> Option<OptionView> {
    if text::is_flag(token) {
        match option_named(c, token) {
            Some(o) => if o.args.len() > 0 {
                Some(o)
            } else {
                None
            },
            None => None,
        }
    } else {
        None
    }
}

/// Consume the tokens from `i` up to `last`, starting from the spec path `path`
/// with `arg_index` positional arguments already given to its innermost spec.
///
/// A flag is skipped, along with its value if it takes one; the name of a
/// subcommand descends into it; anything else fills a positional argument.
pub open spec fn walk(
    tokens: Seq<Seq<char>>,
    i: int,
    last: int,
    path: Seq<CommandView>,
    arg_index: nat,
) -> (Seq<CommandView>, nat)
    decreases (if i < last {
        last - i
    } else {
        0
    }),
{
    if i >= last {
        (path, arg_index)
    } else if text::is_flag(tokens[i]) {
        walk(
            tokens,
            if awaits_value(path.last(), tokens[i]) is Some {
                i + 2
            } else {
                i + 1
            },
            last,
            path,
            arg_index,
        )
    } else {
        match subcommand_named(path.last(), tokens[i]) {
            Some(sub) => walk(tokens, i + 1, last, path.push(sub), 0),
            None => walk(tokens, i + 1, last, path, arg_index + 1),
        }
    }
}

/// The number of leading tokens that lie before the cursor's own token.
pub open spec fn settled(tokens: Seq<Seq<char>>, cursor: CursorPlacement) -> int {
    match cursor {
        CursorPlacement::InToken { index } => index as int,
        CursorPlacement::BetweenTokens => tokens.len() as int,
    }
}

/// What is expected at the cursor, inside the spec `current` of which
/// `arg_index` positional arguments have been given: the value of the flag just
/// before the cursor, else the flag being typed, else the next positional
/// argument, else a subcommand or an option if the spec has any, else nothing.
pub open spec fn expected(
    tokens: Seq<Seq<char>>,
    cursor: CursorPlacement,
    current: CommandView,
    arg_index: nat,
) -> ExpectingView {
    let n = settled(tokens, cursor);
    if n > 0 && awaits_value(current, tokens[n - 1]) is Some {
        ExpectingView::OptionValue(awaits_value(current, tokens[n - 1])->0)
    } else if cursor is InToken && text::is_flag(tokens[n]) {
        ExpectingView::Option
    } else if arg_index < current.args.len() {
        ExpectingView::ArgValue(current.args[arg_index as int])
    } else if current.subcommands.len() == 0 && current.options.len() == 0 {
        ExpectingView::Done
    } else {
        ExpectingView::SubcommandOrOption
    }
}

/// The parse context of `tokens` with the cursor at `cursor`, against `root`.
pub open spec fn context_of(tokens: Seq<Seq<char>>, cursor: CursorPlacement, root: CommandView) -> ContextView {
    if tokens.len() == 0 {
        ContextView { path: seq![root], expecting: ExpectingView::SubcommandOrOption }
    } else if tokens[0] != root.name {
        ContextView { path: seq![], expecting: ExpectingView::Done }
    } else {
        let (path, arg_index) = walk(tokens, 1, settled(tokens, cursor), seq![root], 0);
        ContextView { path, expecting: expected(tokens, cursor, path.last(), arg_index) }
    }
}

impl<'a> ParseContext<'a> {
    /// Innermost spec (the deepest subcommand the cursor is "inside").
    pub fn current_spec(&self) -> (r: Option<&'a CommandSpec>)
        ensures
            self.spec_path@.len() == 0 ==> r is None,
            self.spec_path@.len() > 0 ==> r == Some(self.spec_path@.last()),
    {
        if self.spec_path.len() == 0 {
            None
        } else {
            Some(self.spec_path[self.spec_path.len() - 1])
        }
    }
}

fn names_contain(names: &Vec<String>, token: &str) -> (r: bool)
    ensures
        r == schema::texts(names@).contains(token@),
{
    let mut i: usize = 0;
    while i < names.len()
        invariant
            i <= names@.len(),
            forall|k: int| 0 <= k < i ==> (#[trigger] names@[k])@ != token@,
        decreases names@.len() - i,
    {
        if text::same_text(names[i].as_str(), token) {
            assert(schema::texts(names@)[i as int] == token@);
            return true;
        }
        i += 1;
    }
    proof {
        assert forall|k: int| 0 <= k < schema::texts(names@).len() implies schema::texts(names@)[k] != token@ by {
            assert(schema::texts(names@)[k] == names@[k]@);
        }
    }
    false
}

fn find_option<'a>(command: &'a CommandSpec, token: &str) -> (r: Option<&'a OptionSpec>)
    ensures
        match r {
            Some(o) => option_named(command@, token@) == Some(o@),
            None => option_named(command@, token@) is None,
        },
{
    let ghost p = |o: OptionView| o.names.contains(token@);
    let ghost views = command@.options;
    let mut i: usize = 0;
    while i < command.options.len()
        invariant
            i <= command.options@.len(),
            views == schema::option_views(command.options@),
            p == (|o: OptionView| o.names.contains(token@)),
            first_where(views, p, 0) == first_where(views, p, i as int),
        decreases command.options@.len() - i,
    {
        assert(views[i as int] == command.options@[i as int]@);
        if names_contain(&command.options[i].names, token) {
            return Some(&command.options[i]);
        }
        i += 1;
    }
    None
}

fn find_subcommand<'a>(command: &'a CommandSpec, token: &str) -> (r: Option<&'a CommandSpec>)
    ensures
        match r {
            Some(s) => subcommand_named(command@, token@) == Some(s@),
            None => subcommand_named(command@, token@) is None,
        },
{
    let ghost p = |s: CommandView| s.name == token@;
    let ghost views = command@.subcommands;
    proof {
        schema::lemma_subcommand_views(command);
    }
    let mut i: usize = 0;
    while i < command.subcommands.len()
        invariant
            i <= command.subcommands@.len(),
            views == command@.subcommands,
            views.len() == command.subcommands@.len(),
            forall|k: int| 0 <= k < views.len() ==> #[trigger] views[k] == command.subcommands@[k]@,
            p == (|s: CommandView| s.name == token@),
            first_where(views, p, 0) == first_where(views, p, i as int),
        decreases command.subcommands@.len() - i,
    {
        assert(views[i as int] == command.subcommands@[i as int]@);
        assert(command.subcommands@[i as int]@.name == command.subcommands@[i as int].name@);
        if text::same_text(command.subcommands[i].name.as_str(), token) {
            return Some(&command.subcommands[i]);
        }
        i += 1;
    }
    None
}

fn find_awaiting<'a>(command: &'a CommandSpec, token: &str) -> (r: Option<&'a OptionSpec>)
    ensures
        match r {
            Some(o) => awaits_value(command@, token@) == Some(o@),
            None => awaits_value(command@, token@) is None,
        },
{
    if !text::begins_with_dash(token) {
        return None;
    }
    match find_option(command, token) {
        Some(opt) => {
            assert(opt@.args.len() == opt.args@.len());
            if opt.args.len() > 0 {
                Some(opt)
            } else {
                None
            }
        },
        None => None,
    }
}

/// Walk `tokenized.tokens` left-to-right against `root` to determine
/// the parse context at the cursor.
///
/// `tokenized.tokens[0]` is expected to be the command name (matched
/// against `root.name`); a mismatch returns `Expecting::Done` since
/// there's no spec context to derive completions from.
pub fn parse_context<'a>(tokenized: &Tokenized<'_>, root: &'a CommandSpec) -> (r: ParseContext<'a>)
    requires
        tokenized.tokens@.len() > 0 && tokenized.tokens@[0].text@ == root.name@ ==> tokenized.wf(),
    ensures
        r@ == context_of(tokenized.texts(), tokenized.cursor, root@),
{
    let tokens = &tokenized.tokens;
    let ghost words = tokenized.texts();
    if tokens.len() == 0 {
        let r = ParseContext { spec_path: vec![root], expecting: Expecting::SubcommandOrOption };
        assert(r@.path =~= seq![root@]);
        return r;
    }
    assert(words[0] == tokens@[0].text@);
    if !text::same_text(tokens[0].text, root.name.as_str()) {
        let r = ParseContext { spec_path: vec![], expecting: Expecting::Done };
        assert(r@.path =~= seq![]);
        return r;
    }
    let mut spec_path: Vec<&'a CommandSpec> = vec![root];
    let mut arg_index: usize = 0;
    let mut i: usize = 1;
    // If the cursor is in a token, that token is what is being completed: it is
    // not consumed.
    let last: usize = match tokenized.cursor {
        CursorPlacement::InToken { index } => index,
        CursorPlacement::BetweenTokens => tokens.len(),
    };
    assert(path_views(spec_path@) =~= seq![root@]);
    while i < last
        invariant
            tokens@ == tokenized.tokens@,
            words == tokenized.texts(),
            last <= tokens@.len(),
            1 <= i,
            arg_index < i,
            spec_path@.len() > 0,
            walk(words, i as int, last as int, path_views(spec_path@), arg_index as nat) == walk(
                words,
                1,
                last as int,
                seq![root@],
                0,
            ),
        decreases last - i,
    {
        let tok: &str = tokens[i].text;
        let current: &'a CommandSpec = spec_path[spec_path.len() - 1];
        assert(words[i as int] == tok@);
        assert(path_views(spec_path@).last() == current@);
        if text::begins_with_dash(tok) {
            proof {
                reveal_with_fuel(walk, 2);
            }
            if find_awaiting(current, tok).is_some() && last - i > 1 {
                i += 2;
            } else {
                i += 1;
            }
        } else {
            match find_subcommand(current, tok) {
                Some(sub) => {
                    let ghost before = spec_path@;
                    spec_path.push(sub);
                    assert(path_views(spec_path@) =~= path_views(before).push(sub@));
                    arg_index = 0;
                },
                None => {
                    arg_index += 1;
                },
            }
            i += 1;
        }
    }
    let current: &'a CommandSpec = spec_path[spec_path.len() - 1];
    assert(path_views(spec_path@).last() == current@);
    if last > 0 {
        assert(words[last - 1] == tokens@[last - 1].text@);
        if let Some(opt) = find_awaiting(current, tokens[last - 1].text) {
            return ParseContext { spec_path, expecting: Expecting::OptionValue(opt) };
        }
    }
    if let CursorPlacement::InToken { index } = tokenized.cursor {
        assert(words[index as int] == tokens@[index as int].text@);
        if text::begins_with_dash(tokens[index].text) {
            return ParseContext { spec_path, expecting: Expecting::Option };
        }
    }
    proof {
        assert(current@.args == schema::arg_views(current.args@));
        assert(current@.options == schema::option_views(current.options@));
        schema::lemma_subcommand_views(current);
    }
    let expecting = if arg_index < current.args.len() {
        Expecting::ArgValue(&current.args[arg_index])
    } else if current.subcommands.len() == 0 && current.options.len() == 0 {
        Expecting::Done
    } else {
        Expecting::SubcommandOrOption
    };
    ParseContext { spec_path, expecting }
}

/// Each spec of the path is a subcommand of the one before it.
pub open spec fn is_descent(path: Seq<CommandView>) -> bool {
    forall|k: int| 0 < k < path.len() ==> path[k - 1].subcommands.contains(#[trigger] path[k])
}

proof fn lemma_first_where<A>(s: Seq<A>, p: spec_fn(A) -> bool, i: int)
    requires
        0 <= i,
    ensures
        first_where(s, p, i) matches Some(x) ==> s.contains(x) && p(x),
        first_where(s, p, i) is None ==> forall|k: int| i <= k < s.len() ==> !p(#[trigger] s[k]),
    decreases s.len() - i,
{
    if i < s.len() && !p(s[i]) {
        lemma_first_where(s, p, i + 1);
    }
}

proof fn lemma_walk_descends(tokens: Seq<Seq<char>>, i: int, last: int, path: Seq<CommandView>, arg_index: nat)
    requires
        0 <= i,
        last <= tokens.len(),
        path.len() > 0,
        is_descent(path),
    ensures
        ({
            let end = walk(tokens, i, last, path, arg_index).0;
            &&& path.is_prefix_of(end)
            &&& is_descent(end)
            &&& forall|k: int|
                path.len() <= k < end.len() ==> tokens.subrange(0, last).contains((#[trigger] end[k]).name)
        }),
    decreases (if i < last {
        last - i
    } else {
        0
    }),
{
    if i < last {
        let current = path.last();
        if text::is_flag(tokens[i]) {
            let next = if awaits_value(current, tokens[i]) is Some {
                i + 2
            } else {
                i + 1
            };
            lemma_walk_descends(tokens, next, last, path, arg_index);
        } else {
            lemma_first_where(current.subcommands, |s: CommandView| s.name == tokens[i], 0);
            match subcommand_named(current, tokens[i]) {
                Some(sub) => {
                    let deeper = path.push(sub);
                    assert forall|k: int| 0 < k < deeper.len() implies deeper[k - 1].subcommands.contains(
                        #[trigger] deeper[k],
                    ) by {
                        if k < path.len() {
                            assert(path[k - 1].subcommands.contains(path[k]));
                        }
                    }
                    lemma_walk_descends(tokens, i + 1, last, deeper, 0);
                    let end = walk(tokens, i, last, path, arg_index).0;
                    assert(path =~= end.subrange(0, path.len() as int)) by {
                        assert(deeper =~= end.subrange(0, deeper.len() as int));
                        assert forall|k: int| 0 <= k < path.len() implies path[k] == end[k] by {
                            assert(deeper[k] == end.subrange(0, deeper.len() as int)[k]);
                        }
                    }
                    assert(end[path.len() as int] == sub) by {
                        assert(deeper[path.len() as int] == end.subrange(0, deeper.len() as int)[path.len() as int]);
                    }
                    assert(tokens.subrange(0, last)[i] == sub.name);
                },
                None => {
                    lemma_walk_descends(tokens, i + 1, last, path, arg_index + 1);
                },
            }
        }
    }
}

/// A line whose first token is not the root's name has no context at all. Any
/// other has a path that starts at the root and descends from subcommand to
/// subcommand, each of them named by a token before the cursor's, and nothing is
/// expected only where the innermost spec offers neither subcommands nor options.
pub proof fn law_path_descends_from_root(tokens: Seq<Seq<char>>, cursor: CursorPlacement, root: CommandView)
    requires
        settled(tokens, cursor) <= tokens.len(),
    ensures
        ({
            let ctx = context_of(tokens, cursor, root);
            if tokens.len() > 0 && tokens[0] != root.name {
                ctx.path.len() == 0 && ctx.expecting is Done
            } else {
                &&& ctx.path.len() > 0
                &&& ctx.expecting is Done ==> ctx.path.last().subcommands.len() == 0 && ctx.path.last().options.len()
                    == 0
                &&& ctx.path[0] == root
                &&& is_descent(ctx.path)
                &&& forall|k: int|
                    0 < k < ctx.path.len() ==> tokens.subrange(0, settled(tokens, cursor)).contains(
                        (#[trigger] ctx.path[k]).name,
                    )
            }
        }),
{
    if tokens.len() > 0 && tokens[0] == root.name {
        lemma_walk_descends(tokens, 1, settled(tokens, cursor), seq![root], 0);
        let path = context_of(tokens, cursor, root).path;
        assert(seq![root][0] == path.subrange(0, 1)[0]);
    }
}

proof fn lemma_walk_agrees(
    tokens: Seq<Seq<char>>,
    others: Seq<Seq<char>>,
    i: int,
    last: int,
    path: Seq<CommandView>,
    arg_index: nat,
)
    requires
        forall|k: int| i <= k < last ==> #[trigger] tokens[k] == others[k],
    ensures
        walk(tokens, i, last, path, arg_index) == walk(others, i, last, path, arg_index),
    decreases (if i < last {
        last - i
    } else {
        0
    }),
{
    if i < last {
        assert(tokens[i] == others[i]);
        if text::is_flag(tokens[i]) {
            let next = if awaits_value(path.last(), tokens[i]) is Some {
                i + 2
            } else {
                i + 1
            };
            lemma_walk_agrees(tokens, others, next, last, path, arg_index);
        } else {
            match subcommand_named(path.last(), tokens[i]) {
                Some(sub) => lemma_walk_agrees(tokens, others, i + 1, last, path.push(sub), 0),
                None => lemma_walk_agrees(tokens, others, i + 1, last, path, arg_index + 1),
            }
        }
    }
}

/// What stands to the right of the cursor's word never matters: two lines that
/// agree up to that word have the same context.
pub proof fn law_words_behind_the_cursor_do_not_matter(
    tokens: Seq<Seq<char>>,
    others: Seq<Seq<char>>,
    index: usize,
    root: CommandView,
)
    requires
        index < tokens.len(),
        index < others.len(),
        tokens.take(index + 1) == others.take(index + 1),
    ensures
        context_of(tokens, CursorPlacement::InToken { index }, root) == context_of(
            others,
            CursorPlacement::InToken { index },
            root,
        ),
{
    assert forall|k: int| 0 <= k <= index implies #[trigger] tokens[k] == others[k] by {
        assert(tokens.take(index + 1)[k] == others.take(index + 1)[k]);
    }
    assert(tokens[0] == others[0]);
    lemma_walk_agrees(tokens, others, 1, index as int, seq![root], 0);
    assert(tokens[index as int] == others[index as int]);
    if index > 0 {
        assert(tokens[index - 1] == others[index - 1]);
    }
}

/// Whether the option of `c` at `j` is the one that `token` spells: the first
/// that lists it among its names.
pub open spec fn spells(c: CommandView, token: Seq<char>, j: int) -> bool {
    &&& 0 <= j < c.options.len()
    &&& c.options[j].names.contains(token)
    &&& forall|i: int| 0 <= i < j ==> !(#[trigger] c.options[i]).names.contains(token)
}

/// Whether `token` is a flag that stands for the option of `c` at `j`, and that
/// option takes a value.
pub open spec fn takes_value(c: CommandView, token: Seq<char>, j: int) -> bool {
    token.len() > 0 && token[0] == '-' && spells(c, token, j) && c.options[j].args.len() > 0
}

/// Whether `token` is no flag of `c` that takes a value.
pub open spec fn takes_no_value(c: CommandView, token: Seq<char>) -> bool {
    forall|j: int| !#[trigger] takes_value(c, token, j)
}

/// The number of tokens before the cursor's own.
pub open spec fn before_cursor(tokens: Seq<Seq<char>>, cursor: CursorPlacement) -> int {
    match cursor {
        CursorPlacement::InToken { index } => index as int,
        CursorPlacement::BetweenTokens => tokens.len() as int,
    }
}

/// What is expected of `c` once `given` positional arguments were given.
pub open spec fn slot(c: CommandView, given: int) -> ExpectingView {
    if given < c.args.len() {
        ExpectingView::ArgValue(c.args[given])
    } else if c.subcommands.len() == 0 && c.options.len() == 0 {
        ExpectingView::Done
    } else {
        ExpectingView::SubcommandOrOption
    }
}

/// A line of `root` that ends behind a word which awaits no value.
pub open spec fn is_complete(pre: Seq<Seq<char>>, root: CommandView) -> bool {
    &&& pre.len() > 0
    &&& pre[0] == root.name
    &&& takes_no_value(context_of(pre, CursorPlacement::BetweenTokens, root).path.last(), pre.last())
}

proof fn lemma_first_where_at<A>(s: Seq<A>, p: spec_fn(A) -> bool, i: int, j: int)
    requires
        0 <= i <= j < s.len(),
        p(s[j]),
        forall|k: int| i <= k < j ==> !p(#[trigger] s[k]),
    ensures
        first_where(s, p, i) == Some(s[j]),
    decreases j - i,
{
    if i < j {
        lemma_first_where_at(s, p, i + 1, j);
    }
}

proof fn lemma_first_where_index<A>(s: Seq<A>, p: spec_fn(A) -> bool, i: int) -> (j: int)
    requires
        0 <= i,
        first_where(s, p, i) is Some,
    ensures
        i <= j < s.len(),
        first_where(s, p, i) == Some(s[j]),
        p(s[j]),
        forall|k: int| i <= k < j ==> !p(#[trigger] s[k]),
    decreases s.len() - i,
{
    if p(s[i]) {
        i
    } else {
        lemma_first_where_index(s, p, i + 1)
    }
}

proof fn lemma_takes_value(c: CommandView, token: Seq<char>)
    ensures
        forall|j: int| #[trigger] takes_value(c, token, j) ==> awaits_value(c, token) == Some(c.options[j]),
        takes_no_value(c, token) <==> awaits_value(c, token) is None,
{
    let p = |o: OptionView| o.names.contains(token);
    assert forall|j: int| #[trigger] takes_value(c, token, j) implies awaits_value(c, token) == Some(c.options[j]) by {
        lemma_first_where_at(c.options, p, 0, j);
    }
    if awaits_value(c, token) is Some {
        let j = lemma_first_where_index(c.options, p, 0);
        assert forall|i: int| 0 <= i < j implies !(#[trigger] c.options[i]).names.contains(token) by {
            assert(!p(c.options[i]));
        }
        assert(takes_value(c, token, j));
    }
}

proof fn lemma_walk_shifted(
    tokens: Seq<Seq<char>>,
    i: int,
    others: Seq<Seq<char>>,
    j: int,
    n: int,
    path: Seq<CommandView>,
    arg_index: nat,
)
    requires
        forall|k: int| 0 <= k < n ==> #[trigger] tokens[i + k] == others[j + k],
    ensures
        walk(tokens, i, i + n, path, arg_index) == walk(others, j, j + n, path, arg_index),
    decreases (if n > 0 {
        n
    } else {
        0
    }),
{
    if n > 0 {
        assert(tokens[i + 0] == others[j + 0]);
        let step = if text::is_flag(tokens[i]) && awaits_value(path.last(), tokens[i]) is Some {
            2int
        } else {
            1int
        };
        assert forall|k: int| 0 <= k < n - step implies #[trigger] tokens[i + step + k] == others[j + step + k] by {
            assert(tokens[i + (step + k)] == others[j + (step + k)]);
        }
        if text::is_flag(tokens[i]) {
            lemma_walk_shifted(tokens, i + step, others, j + step, n - step, path, arg_index);
        } else {
            match subcommand_named(path.last(), tokens[i]) {
                Some(sub) => lemma_walk_shifted(tokens, i + 1, others, j + 1, n - 1, path.push(sub), 0),
                None => lemma_walk_shifted(tokens, i + 1, others, j + 1, n - 1, path, arg_index + 1),
            }
        }
    }
}

proof fn lemma_walk_splits(
    tokens: Seq<Seq<char>>,
    i: int,
    m: int,
    last: int,
    path: Seq<CommandView>,
    arg_index: nat,
)
    requires
        i <= m <= last,
        i < m ==> awaits_value(walk(tokens, i, m, path, arg_index).0.last(), tokens[m - 1]) is None,
    ensures
        walk(tokens, i, last, path, arg_index) == walk(
            tokens,
            m,
            last,
            walk(tokens, i, m, path, arg_index).0,
            walk(tokens, i, m, path, arg_index).1,
        ),
    decreases m - i,
{
    if i < m {
        if text::is_flag(tokens[i]) {
            if awaits_value(path.last(), tokens[i]) is Some {
                if i + 2 <= m {
                    lemma_walk_splits(tokens, i + 2, m, last, path, arg_index);
                } else {
                    reveal_with_fuel(walk, 2);
                }
            } else {
                lemma_walk_splits(tokens, i + 1, m, last, path, arg_index);
            }
        } else {
            match subcommand_named(path.last(), tokens[i]) {
                Some(sub) => lemma_walk_splits(tokens, i + 1, m, last, path.push(sub), 0),
                None => lemma_walk_splits(tokens, i + 1, m, last, path, arg_index + 1),
            }
        }
    }
}

/// Walking over a complete part of a line and then over the rest.
proof fn lemma_walk_after(pre: Seq<Seq<char>>, rest: Seq<Seq<char>>, last: int, root: CommandView)
    requires
        is_complete(pre, root),
        pre.len() <= last <= pre.len() + rest.len(),
    ensures
        ({
            let (path, given) = walk(pre, 1, pre.len() as int, seq![root], 0);
            &&& path == context_of(pre, CursorPlacement::BetweenTokens, root).path
            &&& walk(pre + rest, 1, last, seq![root], 0) == walk(rest, 0, last - pre.len(), path, given)
        }),
{
    let all = pre + rest;
    let m = pre.len() as int;
    let (path, given) = walk(pre, 1, m, seq![root], 0);
    assert forall|k: int| 0 <= k < m - 1 implies #[trigger] all[1 + k] == pre[1 + k] by {}
    lemma_walk_shifted(all, 1, pre, 1, m - 1, seq![root], 0);
    lemma_takes_value(path.last(), pre.last());
    assert(all[m - 1] == pre.last());
    lemma_walk_splits(all, 1, m, last, seq![root], 0);
    assert forall|k: int| 0 <= k < last - m implies #[trigger] all[m + k] == rest[0 + k] by {}
    lemma_walk_shifted(all, m, rest, 0, last - m, path, given);
}

/// Behind a flag that takes a value, that value is expected, and it is the value
/// of the first option that lists the flag.
pub proof fn law_value_is_expected_behind_its_flag(
    tokens: Seq<Seq<char>>,
    cursor: CursorPlacement,
    root: CommandView,
    j: int,
)
    requires
        tokens.len() > 0,
        tokens[0] == root.name,
        0 < before_cursor(tokens, cursor) <= tokens.len(),
        takes_value(
            context_of(tokens, cursor, root).path.last(),
            tokens[before_cursor(tokens, cursor) - 1],
            j,
        ),
    ensures
        context_of(tokens, cursor, root).expecting == ExpectingView::OptionValue(
            context_of(tokens, cursor, root).path.last().options[j],
        ),
{
    lemma_takes_value(
        context_of(tokens, cursor, root).path.last(),
        tokens[before_cursor(tokens, cursor) - 1],
    );
}

/// A flag under the cursor is being typed, unless a value is expected there. A
/// value is expected nowhere else than behind a flag that takes one, and a flag
/// nowhere else than under the cursor.
pub proof fn law_flag_under_the_cursor(tokens: Seq<Seq<char>>, cursor: CursorPlacement, root: CommandView)
    requires
        tokens.len() > 0,
        tokens[0] == root.name,
        before_cursor(tokens, cursor) <= tokens.len(),
        before_cursor(tokens, cursor) > 0 ==> takes_no_value(
            context_of(tokens, cursor, root).path.last(),
            tokens[before_cursor(tokens, cursor) - 1],
        ),
    ensures
        !(context_of(tokens, cursor, root).expecting is OptionValue),
        context_of(tokens, cursor, root).expecting is Option <==> (cursor matches CursorPlacement::InToken { index }
            && tokens[index as int].len() > 0 && tokens[index as int][0] == '-'),
{
    if before_cursor(tokens, cursor) > 0 {
        lemma_takes_value(
            context_of(tokens, cursor, root).path.last(),
            tokens[before_cursor(tokens, cursor) - 1],
        );
    }
}

/// The word under the cursor does not count: the specs walked through are those
/// of the line before it, and unless it is a flag, so is what is expected.
pub proof fn law_word_under_the_cursor_does_not_count(tokens: Seq<Seq<char>>, index: usize, root: CommandView)
    requires
        0 < index < tokens.len(),
        tokens[0] == root.name,
    ensures
        ({
            let at = context_of(tokens, CursorPlacement::InToken { index }, root);
            let before = context_of(tokens.take(index as int), CursorPlacement::BetweenTokens, root);
            &&& at.path == before.path
            &&& !(tokens[index as int].len() > 0 && tokens[index as int][0] == '-') ==> at == before
        }),
{
    let before = tokens.take(index as int);
    assert forall|k: int| 0 <= k < index - 1 implies #[trigger] tokens[1 + k] == before[1 + k] by {}
    lemma_walk_shifted(tokens, 1, before, 1, index - 1, seq![root], 0);
    assert(before[index - 1] == tokens[index - 1]);
}

/// With the cursor in the command's own word, nothing was walked through yet.
pub proof fn law_cursor_in_the_command(tokens: Seq<Seq<char>>, root: CommandView)
    requires
        tokens.len() > 0,
        tokens[0] == root.name,
    ensures
        context_of(tokens, CursorPlacement::InToken { index: 0 }, root).path == seq![root],
        root.name.len() == 0 || root.name[0] != '-' ==> context_of(
            tokens,
            CursorPlacement::InToken { index: 0 },
            root,
        ).expecting == slot(root, 0),
{
}

/// Without any word, the command itself is where everything begins.
pub proof fn law_empty_line_starts_at_the_root(tokens: Seq<Seq<char>>, cursor: CursorPlacement, root: CommandView)
    requires
        tokens.len() == 0,
    ensures
        context_of(tokens, cursor, root).path == seq![root],
        context_of(tokens, cursor, root).expecting is SubcommandOrOption,
{
}

/// A flag that takes a value goes with its value: behind both, the context is that
/// of the line without them. The value counts as no argument and names no
/// subcommand, whatever it is.
pub proof fn law_flag_and_its_value_are_skipped(
    pre: Seq<Seq<char>>,
    flag: Seq<char>,
    value: Seq<char>,
    post: Seq<Seq<char>>,
    j: int,
    root: CommandView,
)
    requires
        is_complete(pre, root),
        takes_value(context_of(pre, CursorPlacement::BetweenTokens, root).path.last(), flag, j),
        post.len() == 0 ==> takes_no_value(
            context_of(pre, CursorPlacement::BetweenTokens, root).path.last(),
            value,
        ),
    ensures
        context_of(pre + (seq![flag, value] + post), CursorPlacement::BetweenTokens, root) == context_of(
            pre + post,
            CursorPlacement::BetweenTokens,
            root,
        ),
{
    let with = seq![flag, value] + post;
    let long = pre + with;
    let short = pre + post;
    let m = pre.len() as int;
    let n = post.len() as int;
    let (path, given) = walk(pre, 1, m, seq![root], 0);
    lemma_walk_after(pre, with, m + n + 2, root);
    lemma_walk_after(pre, post, m + n, root);
    lemma_takes_value(path.last(), flag);
    lemma_takes_value(path.last(), value);
    lemma_takes_value(path.last(), pre.last());
    assert(with[0] == flag && with[1] == value);
    assert(takes_value(path.last(), flag, j));
    assert(walk(with, 0, n + 2, path, given) == walk(with, 2, n + 2, path, given));
    assert forall|k: int| 0 <= k < n implies #[trigger] with[2 + k] == post[0 + k] by {}
    lemma_walk_shifted(with, 2, post, 0, n, path, given);
    assert(long[0] == root.name && short[0] == root.name);
    if n > 0 {
        assert(long[long.len() - 1] == post.last());
        assert(short[short.len() - 1] == post.last());
    } else {
        assert(long[long.len() - 1] == value);
        assert(short[short.len() - 1] == pre.last());
    }
}

/// A flag that takes no value stands for itself: behind it, the context is that
/// of the line without it.
pub proof fn law_flag_without_value_is_skipped(
    pre: Seq<Seq<char>>,
    flag: Seq<char>,
    post: Seq<Seq<char>>,
    root: CommandView,
)
    requires
        is_complete(pre, root),
        flag.len() > 0,
        flag[0] == '-',
        takes_no_value(context_of(pre, CursorPlacement::BetweenTokens, root).path.last(), flag),
    ensures
        context_of(pre + (seq![flag] + post), CursorPlacement::BetweenTokens, root) == context_of(
            pre + post,
            CursorPlacement::BetweenTokens,
            root,
        ),
{
    let with = seq![flag] + post;
    let long = pre + with;
    let short = pre + post;
    let m = pre.len() as int;
    let n = post.len() as int;
    let (path, given) = walk(pre, 1, m, seq![root], 0);
    lemma_walk_after(pre, with, m + n + 1, root);
    lemma_walk_after(pre, post, m + n, root);
    lemma_takes_value(path.last(), flag);
    lemma_takes_value(path.last(), pre.last());
    assert(with[0] == flag);
    assert(walk(with, 0, n + 1, path, given) == walk(with, 1, n + 1, path, given));
    assert forall|k: int| 0 <= k < n implies #[trigger] with[1 + k] == post[0 + k] by {}
    lemma_walk_shifted(with, 1, post, 0, n, path, given);
    assert(long[0] == root.name && short[0] == root.name);
    if n > 0 {
        assert(long[long.len() - 1] == post.last());
        assert(short[short.len() - 1] == post.last());
    } else {
        assert(long[long.len() - 1] == flag);
        assert(short[short.len() - 1] == pre.last());
    }
}

/// Whether `word` names the subcommand of `c` at `k`: it is no flag, and that
/// subcommand is the first of this name.
pub open spec fn names_subcommand(c: CommandView, word: Seq<char>, k: int) -> bool {
    &&& !(word.len() > 0 && word[0] == '-')
    &&& 0 <= k < c.subcommands.len()
    &&& c.subcommands[k].name == word
    &&& forall|i: int| 0 <= i < k ==> (#[trigger] c.subcommands[i]).name != word
}

/// Whether `word` is an argument of `c`: neither a flag nor a subcommand's name.
pub open spec fn is_argument(c: CommandView, word: Seq<char>) -> bool {
    &&& !(word.len() > 0 && word[0] == '-')
    &&& forall|i: int| 0 <= i < c.subcommands.len() ==> (#[trigger] c.subcommands[i]).name != word
}

proof fn lemma_names_subcommand(c: CommandView, word: Seq<char>, k: int)
    ensures
        names_subcommand(c, word, k) ==> subcommand_named(c, word) == Some(c.subcommands[k]),
        is_argument(c, word) ==> subcommand_named(c, word) is None,
{
    let p = |s: CommandView| s.name == word;
    if names_subcommand(c, word, k) {
        lemma_first_where_at(c.subcommands, p, 0, k);
    }
    if is_argument(c, word) && subcommand_named(c, word) is Some {
        let i = lemma_first_where_index(c.subcommands, p, 0);
        assert(c.subcommands[i].name == word);
    }
}

proof fn lemma_walk_arguments(words: Seq<Seq<char>>, i: int, path: Seq<CommandView>, given: nat)
    requires
        0 <= i <= words.len(),
        forall|k: int| 0 <= k < words.len() ==> is_argument(path.last(), #[trigger] words[k]),
    ensures
        walk(words, i, words.len() as int, path, given) == (path, (given + (words.len() - i)) as nat),
    decreases words.len() - i,
{
    if i < words.len() {
        assert(is_argument(path.last(), words[i]));
        lemma_names_subcommand(path.last(), words[i], 0);
        lemma_walk_arguments(words, i + 1, path, given + 1);
    }
}

/// The name of a subcommand leads into it, and arguments behind it are counted:
/// what is expected is the subcommand's next positional argument, and past the
/// last of them whatever else it offers.
pub proof fn law_arguments_of_a_subcommand(
    pre: Seq<Seq<char>>,
    word: Seq<char>,
    k: int,
    words: Seq<Seq<char>>,
    root: CommandView,
)
    requires
        is_complete(pre, root),
        names_subcommand(context_of(pre, CursorPlacement::BetweenTokens, root).path.last(), word, k),
        forall|i: int|
            0 <= i < words.len() ==> is_argument(
                context_of(pre, CursorPlacement::BetweenTokens, root).path.last().subcommands[k],
                #[trigger] words[i],
            ),
    ensures
        ({
            let outer = context_of(pre, CursorPlacement::BetweenTokens, root).path;
            let sub = outer.last().subcommands[k];
            context_of(pre + (seq![word] + words), CursorPlacement::BetweenTokens, root) == (ContextView {
                path: outer.push(sub),
                expecting: slot(sub, words.len() as int),
            })
        }),
{
    let with = seq![word] + words;
    let all = pre + with;
    let m = pre.len() as int;
    let n = words.len() as int;
    let (outer, given) = walk(pre, 1, m, seq![root], 0);
    let sub = outer.last().subcommands[k];
    let inner = outer.push(sub);
    lemma_walk_after(pre, with, m + n + 1, root);
    lemma_names_subcommand(outer.last(), word, k);
    assert(with[0] == word);
    assert(walk(with, 0, n + 1, outer, given) == walk(with, 1, n + 1, inner, 0));
    assert forall|i: int| 0 <= i < n implies #[trigger] with[1 + i] == words[0 + i] by {}
    lemma_walk_shifted(with, 1, words, 0, n, inner, 0);
    lemma_walk_arguments(words, 0, inner, 0);
    assert(all[0] == root.name);
    let last = all[all.len() - 1];
    if n > 0 {
        assert(last == words[n - 1]);
        assert(is_argument(sub, words[n - 1]));
    } else {
        assert(last == word);
    }
    lemma_takes_value(sub, last);
}

/// The same of the command itself.
pub proof fn law_arguments_of_the_command(words: Seq<Seq<char>>, root: CommandView)
    requires
        takes_no_value(root, root.name),
        forall|i: int| 0 <= i < words.len() ==> is_argument(root, #[trigger] words[i]),
    ensures
        context_of(seq![root.name] + words, CursorPlacement::BetweenTokens, root) == (ContextView {
            path: seq![root],
            expecting: slot(root, words.len() as int),
        }),
{
    let all = seq![root.name] + words;
    let n = words.len() as int;
    let path = seq![root];
    assert forall|i: int| 0 <= i < n implies #[trigger] all[1 + i] == words[0 + i] by {}
    lemma_walk_shifted(all, 1, words, 0, n, path, 0);
    lemma_walk_arguments(words, 0, path, 0);
    assert(all[0] == root.name);
    let last = all[all.len() - 1];
    if n > 0 {
        assert(last == words[n - 1]);
        assert(is_argument(root, words[n - 1]));
    }
    lemma_takes_value(root, last);
}

} // verus!
