//! The suggestion engine: from a command line to a list of suggestions.
//!
//! On each change of the input, [`request`] says whether there is anything to
//! suggest for, [`pending_generator`] which part of the working directory has to
//! be read, and [`compute_suggestions`] what to suggest.

use vstd::prelude::*;
use vstd::string::*;

use crate::bundle;
use crate::bundle::{DbView, SpecDb};
use crate::context;
use crate::generators;
use crate::generators::{WorkingDir, WorkingDirView};
use crate::matcher;
use crate::matcher::{Suggestion, SuggestionKind, SuggestionView};
use crate::schema;
use crate::schema::{CommandSpec, CommandView, GeneratorKind};
use crate::sorting;
use crate::state::{SharedState, ShellState, StateView};
use crate::text;
use crate::tokens;
use crate::tokens::{CursorPlacement, TokenView, Tokenized};

verus! {

broadcast use vstd::seq_lib::group_seq_properties;

/// Cap on how many suggestions the engine emits per tick. Larger lists are not
/// useful, and they slow ranking and rendering.
pub const MAX_SUGGESTIONS: usize = 16;

/// The words of a line.
pub open spec fn words_of(line: Seq<char>) -> Seq<Seq<char>> {
    tokens::tokens_of(line).map_values(|t: TokenView| t.text)
}

/// The word that the cursor is in, or nothing if it is in none.
pub open spec fn word_under(line: Seq<char>, cursor: int) -> Seq<char> {
    match tokens::placement(line, cursor) {
        CursorPlacement::InToken { index } => words_of(line)[index as int],
        CursorPlacement::BetweenTokens => seq![],
    }
}

/// What the matcher suggests for a line, generators not yet run.
pub open spec fn matches_in(root: CommandView, line: Seq<char>, cursor: int) -> Seq<SuggestionView> {
    matcher::matches_for(
        context::context_of(words_of(line), tokens::placement(line, cursor), root),
        word_under(line, cursor),
    )
}

/// A generated value as a suggestion.
pub open spec fn of_value(value: Seq<char>, placeholder: SuggestionView) -> SuggestionView {
    SuggestionView { text: value, description: placeholder.description, kind: SuggestionKind::StaticArg }
}

/// The values that begin with `prefix`, in place of their placeholder.
pub open spec fn generated(
    values: Seq<Seq<char>>,
    prefix: Seq<char>,
    placeholder: SuggestionView,
) -> Seq<SuggestionView> {
    values.filter(|v: Seq<char>| prefix.is_prefix_of(v)).map_values(|v: Seq<char>| of_value(v, placeholder))
}

/// What one suggestion of the matcher becomes once generators are run.
pub open spec fn resolved_one(s: SuggestionView, prefix: Seq<char>, cwd: WorkingDirView) -> Seq<SuggestionView> {
    match s.kind {
        SuggestionKind::GeneratedValue(kind) => generated(generators::resolved(kind, cwd), prefix, s),
        _ => seq![s],
    }
}

/// What the matcher's suggestions become once generators are run.
pub open spec fn expanded(raw: Seq<SuggestionView>, prefix: Seq<char>, cwd: WorkingDirView) -> Seq<SuggestionView>
    decreases raw.len(),
{
    if raw.len() == 0 {
        seq![]
    } else {
        expanded(raw.drop_last(), prefix, cwd) + resolved_one(raw.last(), prefix, cwd)
    }
}

/// The first suggestions of a list, as many as are of use.
pub open spec fn capped(list: Seq<SuggestionView>) -> Seq<SuggestionView> {
    if list.len() <= MAX_SUGGESTIONS {
        list
    } else {
        list.take(MAX_SUGGESTIONS as int)
    }
}

/// The suggestions for a line whose command has the spec `root`.
pub open spec fn suggestions_for(
    root: CommandView,
    line: Seq<char>,
    cursor: int,
    cwd: WorkingDirView,
) -> Seq<SuggestionView> {
    capped(expanded(matches_in(root, line, cursor), word_under(line, cursor), cwd))
}

/// Appends what `s` becomes to `out`, up to the cap.
fn push_resolved(s: &Suggestion, prefix: &str, cwd: &WorkingDir, out: &mut Vec<Suggestion>)
    requires
        old(out)@.len() < MAX_SUGGESTIONS,
    ensures
        matcher::suggestion_views(final(out)@) == capped(
            matcher::suggestion_views(old(out)@) + resolved_one(s@, prefix@, cwd@),
        ),
{
    let ghost done = matcher::suggestion_views(out@);
    match s.kind {
        SuggestionKind::GeneratedValue(kind) => {
            let values = generators::resolve(kind, cwd);
            let ghost all = schema::texts(values@);
            let ghost p = |v: Seq<char>| prefix@.is_prefix_of(v);
            let ghost f = |v: Seq<char>| of_value(v, s@);
            let mut i: usize = 0;
            proof {
                reveal(Seq::filter);
                assert(done + all.take(0).filter(p).map_values(f) =~= done);
            }
            while i < values.len() && out.len() < MAX_SUGGESTIONS
                invariant
                    i <= values@.len(),
                    out@.len() <= MAX_SUGGESTIONS,
                    all == schema::texts(values@),
                    p == (|v: Seq<char>| prefix@.is_prefix_of(v)),
                    f == (|v: Seq<char>| of_value(v, s@)),
                    matcher::suggestion_views(out@) == done + all.take(i as int).filter(p).map_values(f),
                decreases values@.len() - i,
            {
                let ghost before = out@;
                let ghost kept = all.take(i as int).filter(p);
                proof {
                    reveal(Seq::filter);
                    assert(all.take(i + 1).drop_last() =~= all.take(i as int));
                    assert(all.take(i + 1).last() == values@[i as int]@);
                }
                let value = &values[i];
                if text::starts_with(value.as_str(), prefix) {
                    let item = Suggestion {
                        text: value.clone(),
                        description: schema::clone_text(&s.description),
                        kind: SuggestionKind::StaticArg,
                    };
                    assert(item@ == of_value(value@, s@));
                    out.push(item);
                    assert(matcher::suggestion_views(out@) =~= matcher::suggestion_views(before).push(item@));
                    assert(done + kept.push(value@).map_values(f) =~= (done + kept.map_values(f)).push(item@));
                }
                i += 1;
            }
            proof {
                let part = all.take(i as int).filter(p).map_values(f);
                let whole = all.filter(p).map_values(f);
                lemma_filter_of_prefix(all, p, i as int);
                assert(all.take(all.len() as int) =~= all);
                assert(part =~= whole.take(part.len() as int));
                assert(matcher::suggestion_views(out@) =~= capped(done + whole));
            }
        },
        _ => {
            out.push(s.clone());
            assert(matcher::suggestion_views(out@) =~= capped(done + seq![s@]));
        },
    }
}

proof fn lemma_filter_of_prefix(s: Seq<Seq<char>>, p: spec_fn(Seq<char>) -> bool, n: int)
    requires
        0 <= n <= s.len(),
    ensures
        s.take(n).filter(p).is_prefix_of(s.filter(p)),
    decreases s.len() - n,
{
    if n < s.len() {
        lemma_filter_of_prefix(s, p, n + 1);
        reveal(Seq::filter);
        assert(s.take(n + 1).drop_last() =~= s.take(n));
    } else {
        assert(s.take(n) =~= s);
    }
}

proof fn lemma_expanded_of_prefix(raw: Seq<SuggestionView>, prefix: Seq<char>, cwd: WorkingDirView, n: int)
    requires
        0 <= n <= raw.len(),
    ensures
        expanded(raw.take(n), prefix, cwd).is_prefix_of(expanded(raw, prefix, cwd)),
    decreases raw.len() - n,
{
    if n < raw.len() {
        lemma_expanded_of_prefix(raw, prefix, cwd, n + 1);
        assert(raw.take(n + 1).drop_last() =~= raw.take(n));
    } else {
        assert(raw.take(n) =~= raw);
    }
}

/// Runs the generators that `raw` names and puts what they give in place of
/// their placeholders, up to [`MAX_SUGGESTIONS`].
pub fn expand(raw: &Vec<Suggestion>, prefix: &str, cwd: &WorkingDir) -> (r: Vec<Suggestion>)
    ensures
        matcher::suggestion_views(r@) == capped(expanded(matcher::suggestion_views(raw@), prefix@, cwd@)),
{
    let ghost all = matcher::suggestion_views(raw@);
    let mut out: Vec<Suggestion> = Vec::new();
    let mut i: usize = 0;
    assert(matcher::suggestion_views(out@) =~= capped(expanded(all.take(0), prefix@, cwd@)));
    while i < raw.len() && out.len() < MAX_SUGGESTIONS
        invariant
            i <= raw@.len(),
            all == matcher::suggestion_views(raw@),
            matcher::suggestion_views(out@) == capped(expanded(all.take(i as int), prefix@, cwd@)),
        decreases raw@.len() - i,
    {
        proof {
            assert(all.take(i + 1).drop_last() =~= all.take(i as int));
            assert(all.take(i + 1).last() == raw@[i as int]@);
        }
        push_resolved(&raw[i], prefix, cwd, &mut out);
        i += 1;
    }
    proof {
        lemma_expanded_of_prefix(all, prefix@, cwd@, i as int);
        assert(all.take(all.len() as int) =~= all);
        let part = expanded(all.take(i as int), prefix@, cwd@);
        let whole = expanded(all, prefix@, cwd@);
        assert(capped(part) =~= capped(whole));
    }
    out
}

/// What the matcher suggests for a tokenized line.
fn raw_matches<'a>(tokenized: &Tokenized<'a>, line: &'a str, cursor: usize, root: &CommandSpec) -> (r: (
    Vec<Suggestion>,
    &'a str,
))
    requires
        tokenized.views() == tokens::tokens_of(line@),
        tokenized.cursor == tokens::placement(line@, cursor as int),
        tokenized.fits(line@),
    ensures
        matcher::suggestion_views(r.0@) == matches_in(root@, line@, cursor as int),
        r.1@ == word_under(line@, cursor as int),
{
    proof {
        assert(tokenized.texts() =~= words_of(line@)) by {
            assert forall|i: int| 0 <= i < tokenized.texts().len() implies tokenized.texts()[i] == words_of(
                line@,
            )[i] by {
                assert(tokenized.views()[i] == tokenized.tokens@[i]@);
            }
        }
        if let CursorPlacement::InToken { index } = tokenized.cursor {
            assert(tokens::token_fits(tokenized.tokens@[index as int]@, line@));
            assert(tokenized.texts()[index as int] == tokenized.tokens@[index as int].text@);
        }
    }
    let ctx = context::parse_context(tokenized, root);
    let prefix = tokenized.cursor_prefix(line);
    (matcher::match_suggestions(&ctx, prefix), prefix)
}

/// The suggestions for a line whose command has the spec `root`.
pub fn suggest(root: &CommandSpec, line: &str, cursor: usize, cwd: &WorkingDir) -> (r: Vec<Suggestion>)
    ensures
        matcher::suggestion_views(r@) == suggestions_for(root@, line@, cursor as int, cwd@),
{
    let tokenized = tokens::tokenize(line, cursor);
    let (raw, prefix) = raw_matches(&tokenized, line, cursor, root);
    expand(&raw, prefix, cwd)
}

/// The generator that has to be run for these suggestions of the matcher.
pub open spec fn generator_in(raw: Seq<SuggestionView>) -> Option<GeneratorKind> {
    if raw.len() > 0 {
        match raw[0].kind {
            SuggestionKind::GeneratedValue(kind) => Some(kind),
            _ => None,
        }
    } else {
        None
    }
}

/// The generator that has to be run to suggest something for a line whose
/// command has the spec `root`: the one part of the working directory that
/// [`suggest`] will look at.
pub fn generator_needed(root: &CommandSpec, line: &str, cursor: usize) -> (r: Option<GeneratorKind>)
    ensures
        r == generator_in(matches_in(root@, line@, cursor as int)),
{
    let tokenized = tokens::tokenize(line, cursor);
    let (raw, _prefix) = raw_matches(&tokenized, line, cursor, root);
    let ghost views = matcher::suggestion_views(raw@);
    if raw.len() == 0 {
        None
    } else {
        assert(views[0] == raw@[0]@);
        match raw[0].kind {
            SuggestionKind::GeneratedValue(kind) => Some(kind),
            _ => None,
        }
    }
}

/// The command that a line calls.
pub open spec fn command_in(line: Seq<char>) -> Option<Seq<char>> {
    if words_of(line).len() > 0 {
        Some(words_of(line)[0])
    } else {
        None
    }
}

/// The command that `line` calls: its first word.
pub fn command_name(line: &str) -> (r: Option<&str>)
    ensures
        match r {
            Some(name) => command_in(line@) == Some(name@),
            None => command_in(line@) is None,
        },
{
    let tokenized = tokens::tokenize(line, 0);
    if tokenized.tokens.len() == 0 {
        assert(tokenized.views().len() == 0);
        None
    } else {
        assert(tokenized.views()[0] == tokenized.tokens@[0]@);
        Some(tokenized.tokens[0].text)
    }
}

/// The text that has to be parsed to suggest something for a line, if any.
pub open spec fn line_to_parse(db: DbView, line: Seq<char>) -> Option<Seq<char>> {
    match command_in(line) {
        Some(name) => bundle::to_parse(db, name),
        None => None,
    }
}

/// What suggesting something for a line does to the database and returns, where
/// parsing the command's spec, should it come to that, gives `parsed`.
pub open spec fn computed(
    db: DbView,
    line: Seq<char>,
    cursor: int,
    cwd: WorkingDirView,
    parsed: Option<CommandView>,
) -> (DbView, Seq<SuggestionView>) {
    match command_in(line) {
        Some(name) => {
            let (after, found) = bundle::looked_up(db, name, parsed);
            match found {
                Some(root) => (after, suggestions_for(root, line, cursor, cwd)),
                None => (after, seq![]),
            }
        },
        None => (db, seq![]),
    }
}

/// Take a line, a cursor and what is known of the working directory, return the
/// ranked suggestion list. `parse` turns the text of a bundled spec into the
/// spec. A line without a command, and a command without a spec, bring nothing.
pub fn compute_suggestions<F: Fn(&str) -> Option<CommandSpec>>(
    db: &mut SpecDb,
    line: &str,
    cursor: usize,
    cwd: &WorkingDir,
    parse: F,
) -> (r: Vec<Suggestion>)
    requires
        forall|t: &str| call_requires(parse, (t,)),
    ensures
        line_to_parse(old(db)@, line@) is None ==> (final(db)@, matcher::suggestion_views(r@)) == computed(
            old(db)@,
            line@,
            cursor as int,
            cwd@,
            None,
        ),
        line_to_parse(old(db)@, line@) matches Some(wanted) ==> exists|t: &str, parsed: Option<CommandSpec>|
            #[trigger] call_ensures(parse, (t,), parsed) && t@ == wanted && (
            final(db)@,
            matcher::suggestion_views(r@),
            ) == computed(old(db)@, line@, cursor as int, cwd@, bundle::opt_command(parsed)),
{
    if let Some(name) = command_name(line) {
        if let Some(root) = db.lookup(name, parse) {
            return suggest(&root, line, cursor, cwd);
        }
    }
    let r: Vec<Suggestion> = Vec::new();
    assert(matcher::suggestion_views(r@) =~= seq![]);
    r
}

/// The generator whose input [`compute_suggestions`] will look at for the same
/// line.
pub fn pending_generator<F: Fn(&str) -> Option<CommandSpec>>(
    db: &mut SpecDb,
    line: &str,
    cursor: usize,
    parse: F,
) -> (r: Option<GeneratorKind>)
    requires
        forall|t: &str| call_requires(parse, (t,)),
    ensures
        line_to_parse(old(db)@, line@) is None ==> (final(db)@, r) == generator_pending(
            old(db)@,
            line@,
            cursor as int,
            None,
        ),
        line_to_parse(old(db)@, line@) matches Some(wanted) ==> exists|t: &str, parsed: Option<CommandSpec>|
            #[trigger] call_ensures(parse, (t,), parsed) && t@ == wanted && (final(db)@, r) == generator_pending(
                old(db)@,
                line@,
                cursor as int,
                bundle::opt_command(parsed),
            ),
{
    if let Some(name) = command_name(line) {
        if let Some(root) = db.lookup(name, parse) {
            return generator_needed(&root, line, cursor);
        }
    }
    None
}

/// What asking for the generator of a line does to the database and returns.
pub open spec fn generator_pending(
    db: DbView,
    line: Seq<char>,
    cursor: int,
    parsed: Option<CommandView>,
) -> (DbView, Option<GeneratorKind>) {
    match command_in(line) {
        Some(name) => {
            let (after, found) = bundle::looked_up(db, name, parsed);
            match found {
                Some(root) => (after, generator_in(matches_in(root, line, cursor))),
                None => (after, None),
            }
        },
        None => (db, None),
    }
}

/// A line to suggest something for.
#[derive(Debug)]
pub struct Request {
    pub line: String,
    pub cursor: usize,
    /// The directory that the generators work in.
    pub cwd: String,
}

/// What a [`Request`] stands for.
pub struct RequestView {
    pub line: Seq<char>,
    pub cursor: int,
    pub cwd: Seq<char>,
}

impl View for Request {
    type V = RequestView;

    open spec fn view(&self) -> RequestView {
        RequestView { line: self.line@, cursor: self.cursor as int, cwd: self.cwd@ }
    }
}

/// The directory that stands for the wrapper's own, where the shell has not
/// told its.
pub const DEFAULT_CWD: &'static str = ".";

/// The line to suggest something for: none unless a prompt is on screen and
/// something was typed into it.
pub open spec fn requested(v: StateView) -> Option<RequestView> {
    if v.state is AtPrompt && v.line.len() > 0 {
        Some(
            RequestView {
                line: v.line,
                cursor: v.cursor,
                cwd: match v.cwd {
                    Some(cwd) => cwd,
                    None => DEFAULT_CWD@,
                },
            },
        )
    } else {
        None
    }
}

/// The line to suggest something for, if there is one.
pub fn request(state: &SharedState) -> (r: Option<Request>)
    ensures
        match r {
            Some(q) => requested(state@) == Some(q@),
            None => requested(state@) is None,
        },
{
    match state.current_state() {
        ShellState::AtPrompt => {},
        _ => {
            return None;
        },
    }
    let (line, cursor) = state.current_line();
    if line.as_str().is_empty() {
        return None;
    }
    let cwd = match state.current_cwd() {
        Some(cwd) => cwd,
        None => DEFAULT_CWD.to_owned(),
    };
    Some(Request { line, cursor, cwd })
}

/// How many suggestions a preview shows.
pub const PREVIEW_LEN: usize = 5;

/// The texts of the first suggestions.
pub fn preview(suggestions: &Vec<Suggestion>) -> (r: Vec<String>)
    ensures
        schema::texts(r@) == matcher::suggestion_views(suggestions@).take(
            if suggestions@.len() < PREVIEW_LEN {
                suggestions@.len() as int
            } else {
                PREVIEW_LEN as int
            },
        ).map_values(|s: SuggestionView| s.text),
{
    let mut r: Vec<String> = Vec::new();
    let mut i: usize = 0;
    while i < suggestions.len() && i < PREVIEW_LEN
        invariant
            i <= suggestions@.len(),
            i <= PREVIEW_LEN,
            r@.len() == i,
            forall|k: int| 0 <= k < i ==> (#[trigger] r@[k])@ == suggestions@[k]@.text,
        decreases suggestions@.len() - i,
    {
        r.push(suggestions[i].text.clone());
        i += 1;
    }
    r
}

/// There are never more suggestions than [`MAX_SUGGESTIONS`].
pub proof fn law_suggestions_are_capped(root: CommandView, line: Seq<char>, cursor: int, cwd: WorkingDirView)
    ensures
        suggestions_for(root, line, cursor, cwd).len() <= MAX_SUGGESTIONS,
{
}

/// Every suggestion begins with the word under the cursor or is the placeholder
/// of an argument, and none names a generator still to be run.
pub proof fn law_suggestions_are_resolved(
    root: CommandView,
    line: Seq<char>,
    cursor: int,
    cwd: WorkingDirView,
    i: int,
)
    requires
        0 <= i < suggestions_for(root, line, cursor, cwd).len(),
    ensures
        !(suggestions_for(root, line, cursor, cwd)[i].kind is GeneratedValue),
        suggestions_for(root, line, cursor, cwd)[i].kind is StaticArg || word_under(line, cursor).is_prefix_of(
            suggestions_for(root, line, cursor, cwd)[i].text,
        ),
{
    let raw = matches_in(root, line, cursor);
    let prefix = word_under(line, cursor);
    let ctx = context::context_of(words_of(line), tokens::placement(line, cursor), root);
    let all = matcher::candidates(ctx, prefix);
    let keys = matcher::rank_keys(all, prefix);
    sorting::law_sort_is_stable(keys);
    assert forall|k: int| 0 <= k < raw.len() && (raw[k].kind is Subcommand || raw[k].kind is Option) implies
        prefix.is_prefix_of(#[trigger] raw[k].text) by {
        let at = sorting::sorted_positions(keys)[k];
        assert(raw[k] == all[at]);
        assert(ctx.expecting is SubcommandOrOption || ctx.expecting is Option);
        matcher::law_names_are_matched_by_prefix(ctx, prefix);
    }
    lemma_expanded_items(raw, prefix, cwd, i);
}

proof fn lemma_expanded_items(raw: Seq<SuggestionView>, prefix: Seq<char>, cwd: WorkingDirView, i: int)
    requires
        0 <= i < expanded(raw, prefix, cwd).len(),
        forall|k: int| 0 <= k < raw.len() && (raw[k].kind is Subcommand || raw[k].kind is Option)
            ==> prefix.is_prefix_of(#[trigger] raw[k].text),
    ensures
        !(expanded(raw, prefix, cwd)[i].kind is GeneratedValue),
        expanded(raw, prefix, cwd)[i].kind is StaticArg || prefix.is_prefix_of(expanded(raw, prefix, cwd)[i].text),
    decreases raw.len(),
{
    let rest = raw.drop_last();
    let before = expanded(rest, prefix, cwd);
    if i < before.len() {
        lemma_expanded_items(rest, prefix, cwd, i);
        assert(expanded(raw, prefix, cwd)[i] == before[i]);
    } else {
        let last = raw[raw.len() - 1];
        assert(expanded(raw, prefix, cwd)[i] == resolved_one(last, prefix, cwd)[i - before.len()]);
        assert(raw[raw.len() - 1].text == last.text);
    }
}

/// Where a generator is to be run, what is suggested is what it gave: the values
/// that begin with the word under the cursor, in the generator's order, cut at
/// the cap.
pub proof fn law_generated_suggestions(
    root: CommandView,
    line: Seq<char>,
    cursor: int,
    cwd: WorkingDirView,
    kind: GeneratorKind,
)
    requires
        generator_in(matches_in(root, line, cursor)) == Some(kind),
    ensures
        suggestions_for(root, line, cursor, cwd) == capped(
            generated(
                generators::resolved(kind, cwd),
                word_under(line, cursor),
                matches_in(root, line, cursor)[0],
            ),
        ),
        forall|i: int|
            0 <= i < suggestions_for(root, line, cursor, cwd).len() ==> word_under(line, cursor).is_prefix_of(
                #[trigger] suggestions_for(root, line, cursor, cwd)[i].text,
            ),
{
    let raw = matches_in(root, line, cursor);
    let prefix = word_under(line, cursor);
    let ctx = context::context_of(words_of(line), tokens::placement(line, cursor), root);
    matcher::law_generator_stands_alone(ctx, prefix, 0);
    reveal_with_fuel(expanded, 2);
    let values = generators::resolved(kind, cwd);
    let p = |v: Seq<char>| prefix.is_prefix_of(v);
    let shown = generated(values, prefix, raw[0]);
    assert(expanded(raw, prefix, cwd) =~= shown);
    assert forall|i: int| 0 <= i < suggestions_for(root, line, cursor, cwd).len() implies prefix.is_prefix_of(
        #[trigger] suggestions_for(root, line, cursor, cwd)[i].text,
    ) by {
        values.lemma_filter_pred(p, i);
        assert(shown[i].text == values.filter(p)[i]);
    }
}

/// What is suggested depends on the working directory only through the one
/// generator that is asked for, and not at all if none is.
pub proof fn law_only_the_pending_generator_matters(
    root: CommandView,
    line: Seq<char>,
    cursor: int,
    cwd: WorkingDirView,
    other: WorkingDirView,
)
    requires
        generator_in(matches_in(root, line, cursor)) matches Some(kind) ==> generators::resolved(kind, cwd)
            == generators::resolved(kind, other),
    ensures
        suggestions_for(root, line, cursor, cwd) == suggestions_for(root, line, cursor, other),
{
    let raw = matches_in(root, line, cursor);
    let prefix = word_under(line, cursor);
    let ctx = context::context_of(words_of(line), tokens::placement(line, cursor), root);
    match generator_in(raw) {
        Some(kind) => {
            law_generated_suggestions(root, line, cursor, cwd, kind);
            law_generated_suggestions(root, line, cursor, other, kind);
        },
        None => {
            assert forall|k: int| 0 <= k < raw.len() implies !(#[trigger] raw[k].kind is GeneratedValue) by {
                if raw[k].kind is GeneratedValue {
                    matcher::law_generator_stands_alone(ctx, prefix, k);
                }
            }
            lemma_nothing_to_expand(raw, prefix, cwd);
            lemma_nothing_to_expand(raw, prefix, other);
        },
    }
}

proof fn lemma_nothing_to_expand(raw: Seq<SuggestionView>, prefix: Seq<char>, cwd: WorkingDirView)
    requires
        forall|k: int| 0 <= k < raw.len() ==> !(#[trigger] raw[k].kind is GeneratedValue),
    ensures
        expanded(raw, prefix, cwd) == raw,
    decreases raw.len(),
{
    if raw.len() > 0 {
        let rest = raw.drop_last();
        assert forall|k: int| 0 <= k < rest.len() implies !(#[trigger] rest[k].kind is GeneratedValue) by {
            assert(rest[k] == raw[k]);
        }
        lemma_nothing_to_expand(rest, prefix, cwd);
        assert(!(raw[raw.len() - 1].kind is GeneratedValue));
        assert(expanded(raw, prefix, cwd) =~= raw);
    } else {
        assert(expanded(raw, prefix, cwd) =~= raw);
    }
}

/// Nothing is suggested for a line without a command, or for a command without
/// a bundled spec.
pub proof fn law_unknown_command_brings_nothing(
    db: DbView,
    line: Seq<char>,
    cursor: int,
    cwd: WorkingDirView,
    parsed: Option<CommandView>,
)
    requires
        command_in(line) matches Some(name) ==> !db.cache.contains_key(name) && bundle::bundled_text(db, name)
            is None,
    ensures
        computed(db, line, cursor, cwd, parsed) == (db, Seq::<SuggestionView>::empty()),
{
}

/// A line's generator may be asked for first and its suggestions computed
/// afterwards: the second call parses nothing once the first has found the
/// spec, and suggests what a single call would have.
pub proof fn law_asking_first_changes_nothing(
    db: DbView,
    line: Seq<char>,
    cursor: int,
    cwd: WorkingDirView,
    parsed: CommandView,
    parsed_again: Option<CommandView>,
)
    ensures
        computed(generator_pending(db, line, cursor, Some(parsed)).0, line, cursor, cwd, parsed_again).1
            == computed(db, line, cursor, cwd, Some(parsed)).1,
{
}

/// A line calls its first word.
pub proof fn law_command_is_the_first_word(line: Seq<char>)
    ensures
        tokens::tokens_of(line).len() == 0 ==> command_in(line) is None,
        tokens::tokens_of(line).len() > 0 ==> command_in(line) == Some(tokens::tokens_of(line)[0].text),
{
}

/// What is being typed is the whole word that the cursor is in, or nothing where
/// it is in none; and it is matched against what is expected after the words
/// before it.
pub proof fn law_line_is_matched_at_the_cursor(root: CommandView, line: Seq<char>, cursor: int, index: usize)
    ensures
        tokens::placement(line, cursor) is BetweenTokens ==> word_under(line, cursor) == Seq::<char>::empty(),
        index < tokens::tokens_of(line).len() && tokens::placement(line, cursor) == (CursorPlacement::InToken {
            index,
        }) ==> word_under(line, cursor) == tokens::tokens_of(line)[index as int].text,
        matches_in(root, line, cursor) == matcher::matches_for(
            context::context_of(
                Seq::new(tokens::tokens_of(line).len(), |i: int| tokens::tokens_of(line)[i].text),
                tokens::placement(line, cursor),
                root,
            ),
            word_under(line, cursor),
        ),
{
    assert(words_of(line) =~= Seq::new(tokens::tokens_of(line).len(), |i: int| tokens::tokens_of(line)[i].text));
}

/// Where no generator is asked for, the suggestions are the first sixteen of the
/// matcher's.
pub proof fn law_suggestions_without_generator(
    root: CommandView,
    line: Seq<char>,
    cursor: int,
    cwd: WorkingDirView,
)
    requires
        forall|k: int|
            0 <= k < matches_in(root, line, cursor).len() ==> !(#[trigger] matches_in(root, line, cursor)[k].kind
                is GeneratedValue),
    ensures
        suggestions_for(root, line, cursor, cwd) == matches_in(root, line, cursor).take(
            if matches_in(root, line, cursor).len() < 16 {
                matches_in(root, line, cursor).len() as int
            } else {
                16
            },
        ),
{
    let raw = matches_in(root, line, cursor);
    lemma_nothing_to_expand(raw, word_under(line, cursor), cwd);
    assert(capped(raw) =~= raw.take(
        if raw.len() < 16 {
            raw.len() as int
        } else {
            16
        },
    ));
}

/// Where a generator is asked for, its values that begin with what was typed are
/// suggested, the first sixteen of them in the generator's order, each as a plain
/// value with the description of the argument.
pub proof fn law_suggestions_of_a_generator(
    root: CommandView,
    line: Seq<char>,
    cursor: int,
    cwd: WorkingDirView,
    kind: GeneratorKind,
)
    requires
        matches_in(root, line, cursor).len() > 0,
        matches_in(root, line, cursor)[0].kind == SuggestionKind::GeneratedValue(kind),
    ensures
        ({
            let values = generators::resolved(kind, cwd).filter(
                |v: Seq<char>| word_under(line, cursor).is_prefix_of(v),
            );
            let shown = suggestions_for(root, line, cursor, cwd);
            &&& shown.len() == (if values.len() < 16 {
                values.len()
            } else {
                16
            })
            &&& forall|i: int|
                0 <= i < shown.len() ==> #[trigger] shown[i] == (SuggestionView {
                    text: values[i],
                    description: matches_in(root, line, cursor)[0].description,
                    kind: SuggestionKind::StaticArg,
                })
        }),
{
    law_generated_suggestions(root, line, cursor, cwd, kind);
}

/// The generator asked for is that of the matcher's first suggestion, if it is a
/// placeholder for one.
pub proof fn law_generator_is_asked_for(raw: Seq<SuggestionView>, kind: GeneratorKind)
    ensures
        raw.len() > 0 && raw[0].kind == SuggestionKind::GeneratedValue(kind) ==> generator_in(raw) == Some(kind),
        generator_in(raw) is Some <==> raw.len() > 0 && raw[0].kind is GeneratedValue,
{
}

/// The suggestions for a line are those that the spec of its command gives, found
/// by the command's name; the database changes as that lookup changes it.
pub proof fn law_suggestions_come_from_the_commands_spec(
    db: DbView,
    line: Seq<char>,
    cursor: int,
    cwd: WorkingDirView,
    parsed: Option<CommandView>,
    name: Seq<char>,
)
    requires
        command_in(line) == Some(name),
    ensures
        computed(db, line, cursor, cwd, parsed).0 == bundle::looked_up(db, name, parsed).0,
        bundle::looked_up(db, name, parsed).1 matches Some(root) ==> computed(db, line, cursor, cwd, parsed).1
            == suggestions_for(root, line, cursor, cwd),
        bundle::looked_up(db, name, parsed).1 is None ==> computed(db, line, cursor, cwd, parsed).1 == Seq::<
            SuggestionView,
        >::empty(),
        line_to_parse(db, line) == bundle::to_parse(db, name),
        generator_pending(db, line, cursor, parsed).0 == bundle::looked_up(db, name, parsed).0,
        bundle::looked_up(db, name, parsed).1 matches Some(root) ==> generator_pending(db, line, cursor, parsed).1
            == generator_in(matches_in(root, line, cursor)),
        bundle::looked_up(db, name, parsed).1 is None ==> generator_pending(db, line, cursor, parsed).1 is None,
{
}

/// Something is suggested for exactly while a prompt is on screen and the line is
/// not empty: for that line, that cursor and the shell's directory, or the
/// wrapper's own where the shell has not told its.
pub proof fn law_request_is_the_line_at_the_prompt(v: StateView)
    ensures
        requested(v) is Some <==> v.state == ShellState::AtPrompt && v.line.len() > 0,
        requested(v) matches Some(q) ==> q.line == v.line && q.cursor == v.cursor,
        requested(v) is Some && v.cwd is Some ==> requested(v)->0.cwd == v.cwd->0,
        requested(v) is Some && v.cwd is None ==> requested(v)->0.cwd == seq!['.'],
{
    reveal_strlit(".");
    assert(DEFAULT_CWD@ =~= seq!['.']);
}

} // verus!
