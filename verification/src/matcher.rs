//! Turning a parse context and the text under the cursor into a ranked list of
//! suggestions. Generators are named here, not run.

use vstd::prelude::*;
use vstd::string::*;

use crate::context::{ContextView, Expecting, ExpectingView, ParseContext};
use crate::schema;
use crate::schema::{ArgSpec, ArgView, CommandSpec, CommandView, GeneratorKind, OptionView};
use crate::sorting;
use crate::sorting::{KeyView, SortKey};
use crate::text;

verus! {

broadcast use vstd::seq_lib::group_seq_properties;

#[derive(Debug, Clone, Copy, PartialEq, Eq, Structural)]
pub enum SuggestionKind {
    Subcommand,
    Option,
    /// A static arg value.
    StaticArg,
    /// A dynamic arg value resolved by running a generator at runtime.
    /// The matcher returns this kind without invoking the generator
    /// itself; the engine resolves it.
    GeneratedValue(GeneratorKind),
}

/// A single ranked suggestion ready to be rendered.
#[derive(Debug, PartialEq, Eq)]
pub struct Suggestion {
    /// The text the user will see and accept.
    pub text: String,
    /// Optional one-line description shown alongside.
    pub description: Option<String>,
    pub kind: SuggestionKind,
}

/// What a [`Suggestion`] stands for.
pub struct SuggestionView {
    pub text: Seq<char>,
    pub description: Option<Seq<char>>,
    pub kind: SuggestionKind,
}

impl View for Suggestion {
    type V = SuggestionView;

    open spec fn view(&self) -> SuggestionView {
        SuggestionView { text: self.text@, description: schema::opt_text(self.description), kind: self.kind }
    }
}

impl Clone for Suggestion {
    fn clone(&self) -> (r: Self)
        ensures
            r@ == self@,
    {
        Suggestion {
            text: self.text.clone(),
            description: schema::clone_text(&self.description),
            kind: self.kind,
        }
    }
}

/// What the suggestions of a list stand for.
pub open spec fn suggestion_views(list: Seq<Suggestion>) -> Seq<SuggestionView> {
    list.map_values(|s: Suggestion| s@)
}

/// The suggestion of a subcommand.
pub open spec fn of_subcommand(c: CommandView) -> SuggestionView {
    SuggestionView { text: c.name, description: c.description, kind: SuggestionKind::Subcommand }
}

/// The suggestion of one spelling of an option.
pub open spec fn of_option(name: Seq<char>, o: OptionView) -> SuggestionView {
    SuggestionView { text: name, description: o.description, kind: SuggestionKind::Option }
}

/// The placeholder for an argument: its name in angle brackets.
pub open spec fn of_arg(a: ArgView) -> SuggestionView {
    SuggestionView {
        text: seq!['<'] + a.name + seq!['>'],
        description: a.description,
        kind: match a.generator {
            Some(g) => SuggestionKind::GeneratedValue(g),
            None => SuggestionKind::StaticArg,
        },
    }
}

/// The subcommands of `c` whose names begin with `prefix`.
pub open spec fn matching_subcommands(subcommands: Seq<CommandView>, prefix: Seq<char>) -> Seq<SuggestionView> {
    subcommands.filter(|s: CommandView| prefix.is_prefix_of(s.name)).map_values(|s: CommandView| of_subcommand(s))
}

/// The spellings of `o` that begin with `prefix`, of the first `n`.
pub open spec fn matching_names(o: OptionView, prefix: Seq<char>, n: int) -> Seq<SuggestionView> {
    o.names.take(n).filter(|name: Seq<char>| prefix.is_prefix_of(name)).map_values(
        |name: Seq<char>| of_option(name, o),
    )
}

/// The spellings of the options that begin with `prefix`, option by option.
pub open spec fn matching_options(options: Seq<OptionView>, prefix: Seq<char>) -> Seq<SuggestionView>
    decreases options.len(),
{
    if options.len() == 0 {
        seq![]
    } else {
        matching_options(options.drop_last(), prefix) + matching_names(
            options.last(),
            prefix,
            options.last().names.len() as int,
        )
    }
}

/// The suggestions for a context, in the order of the spec. Where a subcommand
/// could stand, options are offered too if the prefix is empty or begins with a
/// dash.
pub open spec fn candidates(ctx: ContextView, prefix: Seq<char>) -> Seq<SuggestionView> {
    if ctx.path.len() == 0 {
        seq![]
    } else {
        let current = ctx.path.last();
        match ctx.expecting {
            ExpectingView::SubcommandOrOption => matching_subcommands(current.subcommands, prefix) + if text::is_flag(
                prefix,
            ) || prefix.len() == 0 {
                matching_options(current.options, prefix)
            } else {
                seq![]
            },
            ExpectingView::Option => matching_options(current.options, prefix),
            ExpectingView::OptionValue(o) => if o.args.len() > 0 {
                seq![of_arg(o.args[0])]
            } else {
                seq![]
            },
            ExpectingView::ArgValue(a) => seq![of_arg(a)],
            ExpectingView::Done => seq![],
        }
    }
}

/// The key by which a suggestion is ranked: those that begin with the prefix
/// come first, and texts go alphabetically.
pub open spec fn rank_key(s: SuggestionView, prefix: Seq<char>) -> KeyView {
    KeyView { late: !prefix.is_prefix_of(s.text), text: s.text }
}

/// The keys by which suggestions are ranked.
pub open spec fn rank_keys(list: Seq<SuggestionView>, prefix: Seq<char>) -> Seq<KeyView> {
    list.map_values(|s: SuggestionView| rank_key(s, prefix))
}

/// The suggestions of `list`, ranked.
pub open spec fn ranked(list: Seq<SuggestionView>, prefix: Seq<char>) -> Seq<SuggestionView> {
    sorting::arranged(list, sorting::sorted_positions(rank_keys(list, prefix)))
}

/// The ranked suggestions for a context.
pub open spec fn matches_for(ctx: ContextView, prefix: Seq<char>) -> Seq<SuggestionView> {
    ranked(candidates(ctx, prefix), prefix)
}

/// Produce a ranked suggestion list for the given parse context and
/// the user's typed prefix.
pub fn match_suggestions(ctx: &ParseContext<'_>, prefix: &str) -> (r: Vec<Suggestion>)
    ensures
        suggestion_views(r@) == matches_for(ctx@, prefix@),
{
    let mut out: Vec<Suggestion> = Vec::new();
    assert(suggestion_views(out@) =~= seq![]);
    if let Some(current) = ctx.current_spec() {
        assert(ctx@.path.last() == current@);
        match &ctx.expecting {
            Expecting::SubcommandOrOption => {
                collect_subcommands(current, prefix, &mut out);
                if text::begins_with_dash(prefix) || prefix.is_empty() {
                    collect_options(current, prefix, &mut out);
                }
            },
            Expecting::Option => {
                collect_options(current, prefix, &mut out);
            },
            Expecting::OptionValue(opt) => {
                assert(opt@.args.len() == opt.args@.len());
                if opt.args.len() > 0 {
                    assert(opt@.args[0] == opt.args@[0]@);
                    push_arg_suggestion(&opt.args[0], &mut out);
                }
            },
            Expecting::ArgValue(arg) => {
                push_arg_suggestion(arg, &mut out);
            },
            Expecting::Done => {},
        }
    }
    assert(suggestion_views(out@) =~= candidates(ctx@, prefix@));
    rank(&out, prefix)
}

fn collect_subcommands(command: &CommandSpec, prefix: &str, out: &mut Vec<Suggestion>)
    ensures
        suggestion_views(final(out)@) == suggestion_views(old(out)@) + matching_subcommands(
            command@.subcommands,
            prefix@,
        ),
{
    let ghost subs = command@.subcommands;
    let ghost p = |s: CommandView| prefix@.is_prefix_of(s.name);
    let ghost f = |s: CommandView| of_subcommand(s);
    let ghost before = suggestion_views(out@);
    proof {
        schema::lemma_subcommand_views(command);
        assert(subs.take(0).filter(p).map_values(f) =~= seq![]);
    }
    let mut i: usize = 0;
    while i < command.subcommands.len()
        invariant
            i <= command.subcommands@.len(),
            subs.len() == command.subcommands@.len(),
            forall|k: int| 0 <= k < subs.len() ==> #[trigger] subs[k] == command.subcommands@[k]@,
            p == (|s: CommandView| prefix@.is_prefix_of(s.name)),
            f == (|s: CommandView| of_subcommand(s)),
            suggestion_views(out@) == before + subs.take(i as int).filter(p).map_values(f),
        decreases command.subcommands@.len() - i,
    {
        let sub = &command.subcommands[i];
        let ghost done = subs.take(i as int).filter(p);
        let ghost so_far = out@;
        assert(subs[i as int] == sub@);
        assert(sub@.name == sub.name@ && sub@.description == schema::opt_text(sub.description));
        assert(subs.take(i + 1).drop_last() =~= subs.take(i as int));
        assert(subs.take(i + 1).last() == sub@);
        proof {
            reveal_with_fuel(Seq::filter, 2);
        }
        if text::starts_with(sub.name.as_str(), prefix) {
            out.push(
                Suggestion {
                    text: sub.name.clone(),
                    description: schema::clone_text(&sub.description),
                    kind: SuggestionKind::Subcommand,
                },
            );
            assert(out@.last()@ == of_subcommand(sub@));
            assert(suggestion_views(out@) =~= suggestion_views(so_far).push(of_subcommand(sub@)));
            assert(done.push(sub@).map_values(f) =~= done.map_values(f).push(of_subcommand(sub@)));
        }
        i += 1;
    }
    assert(subs.take(subs.len() as int) =~= subs);
}

fn collect_options(command: &CommandSpec, prefix: &str, out: &mut Vec<Suggestion>)
    ensures
        suggestion_views(final(out)@) == suggestion_views(old(out)@) + matching_options(command@.options, prefix@),
{
    let ghost opts = command@.options;
    let ghost before = suggestion_views(out@);
    assert(before + matching_options(opts.take(0), prefix@) =~= before);
    let mut i: usize = 0;
    while i < command.options.len()
        invariant
            i <= command.options@.len(),
            opts == schema::option_views(command.options@),
            suggestion_views(out@) == before + matching_options(opts.take(i as int), prefix@),
        decreases command.options@.len() - i,
    {
        let opt = &command.options[i];
        let ghost o = opt@;
        let ghost start = suggestion_views(out@);
        let ghost p = |name: Seq<char>| prefix@.is_prefix_of(name);
        let ghost f = |name: Seq<char>| of_option(name, o);
        assert(opts[i as int] == o);
        assert(start + matching_names(o, prefix@, 0) =~= start);
        let mut k: usize = 0;
        while k < opt.names.len()
            invariant
                k <= opt.names@.len(),
                o == opt@,
                p == (|name: Seq<char>| prefix@.is_prefix_of(name)),
                f == (|name: Seq<char>| of_option(name, o)),
                suggestion_views(out@) == start + matching_names(o, prefix@, k as int),
            decreases opt.names@.len() - k,
        {
            let name = &opt.names[k];
            let ghost done = o.names.take(k as int).filter(p);
            let ghost so_far = out@;
            assert(o.names[k as int] == name@);
            assert(o.names.take(k + 1).drop_last() =~= o.names.take(k as int));
            assert(o.names.take(k + 1).last() == name@);
            proof {
                reveal_with_fuel(Seq::filter, 2);
            }
            if text::starts_with(name.as_str(), prefix) {
                out.push(
                    Suggestion {
                        text: name.clone(),
                        description: schema::clone_text(&opt.description),
                        kind: SuggestionKind::Option,
                    },
                );
                assert(out@.last()@ == of_option(name@, o));
                assert(suggestion_views(out@) =~= suggestion_views(so_far).push(of_option(name@, o)));
                assert(done.push(name@).map_values(f) =~= done.map_values(f).push(of_option(name@, o)));
            }
            k += 1;
        }
        assert(opts.take(i + 1).drop_last() =~= opts.take(i as int));
        assert(opts.take(i + 1).last() == o);
        assert(suggestion_views(out@) =~= before + matching_options(opts.take(i + 1), prefix@));
        i += 1;
    }
    assert(opts.take(opts.len() as int) =~= opts);
}

fn push_arg_suggestion(arg: &ArgSpec, out: &mut Vec<Suggestion>)
    ensures
        suggestion_views(final(out)@) == suggestion_views(old(out)@).push(of_arg(arg@)),
{
    proof {
        reveal_strlit("<");
        reveal_strlit(">");
    }
    let text = "<".to_owned().concat(arg.name.as_str()).concat(">");
    assert(text@ =~= seq!['<'] + arg.name@ + seq!['>']);
    let kind = match arg.generator {
        Some(gen) => SuggestionKind::GeneratedValue(gen),
        None => SuggestionKind::StaticArg,
    };
    out.push(Suggestion { text, description: schema::clone_text(&arg.description), kind });
    assert(out@.last()@ == of_arg(arg@));
    assert(suggestion_views(out@) =~= suggestion_views(old(out)@).push(of_arg(arg@)));
}

fn rank(out: &Vec<Suggestion>, prefix: &str) -> (r: Vec<Suggestion>)
    ensures
        suggestion_views(r@) == ranked(suggestion_views(out@), prefix@),
{
    let ghost views = suggestion_views(out@);
    let mut keys: Vec<SortKey<'_>> = Vec::new();
    let mut i: usize = 0;
    while i < out.len()
        invariant
            i <= out@.len(),
            keys@.len() == i,
            forall|k: int| 0 <= k < i ==> (#[trigger] keys@[k])@ == rank_key(out@[k]@, prefix@),
        decreases out@.len() - i,
    {
        let late = !text::starts_with(out[i].text.as_str(), prefix);
        keys.push(SortKey { late, text: out[i].text.as_str() });
        i += 1;
    }
    assert(sorting::key_views(keys@) =~= rank_keys(views, prefix@));
    let order = sorting::sort_positions(&keys);
    let mut r: Vec<Suggestion> = Vec::new();
    let mut k: usize = 0;
    while k < order.len()
        invariant
            k <= order@.len(),
            r@.len() == k,
            forall|m: int| 0 <= m < order@.len() ==> #[trigger] order@[m] < out@.len(),
            forall|m: int| 0 <= m < k ==> (#[trigger] r@[m])@ == out@[order@[m] as int]@,
        decreases order@.len() - k,
    {
        r.push(out[order[k]].clone());
        k += 1;
    }
    proof {
        assert forall|m: int| 0 <= m < r@.len() implies suggestion_views(r@)[m] == ranked(views, prefix@)[m] by {
            assert(sorting::ints(order@)[m] == order@[m]);
            assert(order@[m] < out@.len());
        }
        assert(suggestion_views(r@) =~= ranked(views, prefix@));
    }
    r
}

proof fn lemma_matching_names(o: OptionView, prefix: Seq<char>, n: int)
    requires
        0 <= n <= o.names.len(),
    ensures
        forall|i: int|
            0 <= i < matching_names(o, prefix, n).len() ==> {
                let s = #[trigger] matching_names(o, prefix, n)[i];
                s.kind is Option && prefix.is_prefix_of(s.text) && o.names.contains(s.text)
            },
        forall|k: int|
            0 <= k < n && prefix.is_prefix_of(#[trigger] o.names[k]) ==> matching_names(o, prefix, n).contains(
                of_option(o.names[k], o),
            ),
    decreases n,
{
    reveal_with_fuel(Seq::filter, 2);
    let p = |name: Seq<char>| prefix.is_prefix_of(name);
    let f = |name: Seq<char>| of_option(name, o);
    let all = matching_names(o, prefix, n);
    if n > 0 {
        let less = matching_names(o, prefix, n - 1);
        lemma_matching_names(o, prefix, n - 1);
        assert(o.names.take(n).drop_last() =~= o.names.take(n - 1));
        let name = o.names[n - 1];
        assert(o.names.take(n).last() == name);
        if p(name) {
            assert(all =~= less.push(of_option(name, o)));
            assert(o.names.contains(name));
            assert(all[all.len() - 1] == of_option(name, o));
        } else {
            assert(all =~= less);
        }
        assert forall|i: int| 0 <= i < all.len() implies ({
            let s = #[trigger] all[i];
            s.kind is Option && prefix.is_prefix_of(s.text) && o.names.contains(s.text)
        }) by {
            if i < less.len() {
                assert(all[i] == less[i]);
            }
        }
        assert forall|k: int| 0 <= k < n && prefix.is_prefix_of(#[trigger] o.names[k]) implies all.contains(
            of_option(o.names[k], o),
        ) by {
            if k < n - 1 {
                let i = choose|i: int| 0 <= i < less.len() && less[i] == of_option(o.names[k], o);
                assert(all[i] == less[i]);
            }
        }
    }
}

proof fn lemma_matching_options(options: Seq<OptionView>, prefix: Seq<char>)
    ensures
        forall|i: int|
            0 <= i < matching_options(options, prefix).len() ==> {
                let s = #[trigger] matching_options(options, prefix)[i];
                s.kind is Option && prefix.is_prefix_of(s.text)
            },
        forall|j: int, k: int|
            0 <= j < options.len() && 0 <= k < options[j].names.len() && prefix.is_prefix_of(
                #[trigger] options[j].names[k],
            ) ==> matching_options(options, prefix).contains(of_option(options[j].names[k], options[j])),
    decreases options.len(),
{
    let all = matching_options(options, prefix);
    if options.len() > 0 {
        let less = matching_options(options.drop_last(), prefix);
        let o = options.last();
        let own = matching_names(o, prefix, o.names.len() as int);
        lemma_matching_options(options.drop_last(), prefix);
        lemma_matching_names(o, prefix, o.names.len() as int);
        assert(all =~= less + own);
        assert forall|i: int| 0 <= i < all.len() implies ({
            let s = #[trigger] all[i];
            s.kind is Option && prefix.is_prefix_of(s.text)
        }) by {
            if i < less.len() {
                assert(all[i] == less[i]);
            } else {
                assert(all[i] == own[i - less.len()]);
            }
        }
        assert forall|j: int, k: int|
            0 <= j < options.len() && 0 <= k < options[j].names.len() && prefix.is_prefix_of(
                #[trigger] options[j].names[k],
            ) implies all.contains(of_option(options[j].names[k], options[j])) by {
            let s = of_option(options[j].names[k], options[j]);
            if j < options.len() - 1 {
                assert(options.drop_last()[j] == options[j]);
                assert(prefix.is_prefix_of(options.drop_last()[j].names[k]));
                let i = choose|i: int| 0 <= i < less.len() && less[i] == s;
                assert(all[i] == s);
            } else {
                assert(prefix.is_prefix_of(o.names[k]));
                let i = choose|i: int| 0 <= i < own.len() && own[i] == s;
                assert(all[less.len() + i] == s);
            }
        }
    }
}

proof fn lemma_matching_subcommands(subs: Seq<CommandView>, prefix: Seq<char>)
    ensures
        forall|i: int|
            0 <= i < matching_subcommands(subs, prefix).len() ==> {
                let s = #[trigger] matching_subcommands(subs, prefix)[i];
                s.kind is Subcommand && prefix.is_prefix_of(s.text)
            },
        forall|k: int|
            0 <= k < subs.len() && prefix.is_prefix_of(#[trigger] subs[k].name) ==> matching_subcommands(
                subs,
                prefix,
            ).contains(of_subcommand(subs[k])),
{
    let p = |s: CommandView| prefix.is_prefix_of(s.name);
    let kept = subs.filter(p);
    let all = matching_subcommands(subs, prefix);
    assert forall|i: int| 0 <= i < all.len() implies ({
        let s = #[trigger] all[i];
        s.kind is Subcommand && prefix.is_prefix_of(s.text)
    }) by {
        subs.lemma_filter_pred(p, i);
    }
    assert forall|k: int| 0 <= k < subs.len() && prefix.is_prefix_of(#[trigger] subs[k].name) implies all.contains(
        of_subcommand(subs[k]),
    ) by {
        subs.lemma_filter_contains(p, k);
        let i = choose|i: int| 0 <= i < kept.len() && kept[i] == subs[k];
        assert(all[i] == of_subcommand(subs[k]));
    }
}

/// Ranking loses and adds no suggestion. Those that begin with the prefix come
/// first; within both groups texts go alphabetically.
pub proof fn law_ranking(list: Seq<SuggestionView>, prefix: Seq<char>)
    ensures
        ranked(list, prefix).to_multiset() == list.to_multiset(),
        ranked(list, prefix).len() == list.len(),
        forall|a: int, b: int|
            0 <= a < b < ranked(list, prefix).len() ==> {
                let (x, y) = (#[trigger] ranked(list, prefix)[a], #[trigger] ranked(list, prefix)[b]);
                &&& prefix.is_prefix_of(y.text) ==> prefix.is_prefix_of(x.text)
                &&& prefix.is_prefix_of(x.text) == prefix.is_prefix_of(y.text) ==> sorting::text_le(x.text, y.text)
            },
{
    let keys = rank_keys(list, prefix);
    let order = sorting::sorted_positions(keys);
    sorting::law_sort_is_stable(keys);
    sorting::law_sort_is_permutation(list, keys);
    assert forall|a: int, b: int| 0 <= a < b < ranked(list, prefix).len() implies ({
        let (x, y) = (#[trigger] ranked(list, prefix)[a], #[trigger] ranked(list, prefix)[b]);
        &&& prefix.is_prefix_of(y.text) ==> prefix.is_prefix_of(x.text)
        &&& prefix.is_prefix_of(x.text) == prefix.is_prefix_of(y.text) ==> sorting::text_le(x.text, y.text)
    }) by {
        assert(sorting::key_le(keys[order[a]], keys[order[b]]));
    }
}

/// Where two suggestions have the same text, the one that the spec lists first
/// is ranked first.
pub proof fn law_ranking_keeps_spec_order(list: Seq<SuggestionView>, prefix: Seq<char>, a: int, b: int)
    requires
        0 <= a < b < ranked(list, prefix).len(),
        ranked(list, prefix)[a].text == ranked(list, prefix)[b].text,
    ensures
        exists|i: int, j: int|
            0 <= i < j < list.len() && ranked(list, prefix)[a] == #[trigger] list[i] && ranked(list, prefix)[b]
                == #[trigger] list[j],
{
    let keys = rank_keys(list, prefix);
    let order = sorting::sorted_positions(keys);
    sorting::law_sort_is_stable(keys);
    assert(keys[order[a]] == keys[order[b]]);
    assert(ranked(list, prefix)[a] == list[order[a]]);
    assert(ranked(list, prefix)[b] == list[order[b]]);
}

/// Where a subcommand or an option is expected, everything suggested begins with
/// what was typed, and everything that the spec offers and that begins with it is
/// suggested: the subcommands, and the options wherever those are offered. An
/// empty prefix therefore brings all of them.
pub proof fn law_names_are_matched_by_prefix(ctx: ContextView, prefix: Seq<char>)
    requires
        ctx.path.len() > 0,
        ctx.expecting is SubcommandOrOption || ctx.expecting is Option,
    ensures
        ({
            let all = candidates(ctx, prefix);
            let current = ctx.path.last();
            &&& forall|i: int| 0 <= i < all.len() ==> prefix.is_prefix_of((#[trigger] all[i]).text)
            &&& ctx.expecting is SubcommandOrOption ==> forall|k: int|
                0 <= k < current.subcommands.len() && prefix.is_prefix_of(#[trigger] current.subcommands[k].name)
                    ==> all.contains(of_subcommand(current.subcommands[k]))
            &&& ctx.expecting is Option || text::is_flag(prefix) || prefix.len() == 0 ==> forall|j: int, k: int|
                0 <= j < current.options.len() && 0 <= k < current.options[j].names.len() && prefix.is_prefix_of(
                    #[trigger] current.options[j].names[k],
                ) ==> all.contains(of_option(current.options[j].names[k], current.options[j]))
        }),
{
    let all = candidates(ctx, prefix);
    let current = ctx.path.last();
    lemma_matching_subcommands(current.subcommands, prefix);
    lemma_matching_options(current.options, prefix);
    let x = matching_subcommands(current.subcommands, prefix);
    let y = matching_options(current.options, prefix);
    if ctx.expecting is SubcommandOrOption {
        assert forall|i: int| 0 <= i < all.len() implies prefix.is_prefix_of((#[trigger] all[i]).text) by {
            if i < x.len() {
                assert(all[i] == x[i]);
            } else {
                assert(all[i] == y[i - x.len()]);
            }
        }
        assert forall|s: SuggestionView| x.contains(s) implies #[trigger] all.contains(s) by {
            let i = choose|i: int| 0 <= i < x.len() && x[i] == s;
            assert(all[i] == s);
        }
        if text::is_flag(prefix) || prefix.len() == 0 {
            assert forall|s: SuggestionView| y.contains(s) implies #[trigger] all.contains(s) by {
                let i = choose|i: int| 0 <= i < y.len() && y[i] == s;
                assert(all[x.len() + i] == s);
            }
        }
    }
}

/// A suggestion that stands for a generator is the only one: subcommands and
/// options never come with one, and an argument brings a single placeholder.
pub proof fn law_generator_stands_alone(ctx: ContextView, prefix: Seq<char>, i: int)
    requires
        0 <= i < matches_for(ctx, prefix).len(),
        matches_for(ctx, prefix)[i].kind is GeneratedValue,
    ensures
        matches_for(ctx, prefix).len() == 1,
        i == 0,
{
    let all = candidates(ctx, prefix);
    let keys = rank_keys(all, prefix);
    sorting::law_sort_is_stable(keys);
    let at = sorting::sorted_positions(keys)[i];
    assert(matches_for(ctx, prefix)[i] == all[at]);
    let current = ctx.path.last();
    lemma_matching_subcommands(current.subcommands, prefix);
    lemma_matching_options(current.options, prefix);
    let x = matching_subcommands(current.subcommands, prefix);
    let y = matching_options(current.options, prefix);
    if ctx.expecting is SubcommandOrOption {
        if at < x.len() {
            assert(all[at] == x[at]);
        } else {
            assert(all[at] == y[at - x.len()]);
        }
    } else if ctx.expecting is Option {
        assert(all[at] == y[at]);
    }
}

/// Whether options are among the suggestions for a prefix.
pub open spec fn offers_options(ctx: ContextView, prefix: Seq<char>) -> bool {
    ctx.expecting is Option || text::is_flag(prefix) || prefix.len() == 0
}

/// Whether a suggestion stays as the prefix grows to `prefix`.
pub open spec fn stays(ctx: ContextView, prefix: Seq<char>) -> spec_fn(SuggestionView) -> bool {
    |s: SuggestionView| prefix.is_prefix_of(s.text) && (s.kind is Option ==> offers_options(ctx, prefix))
}

proof fn lemma_longer_prefix(short: Seq<char>, long: Seq<char>, t: Seq<char>)
    requires
        short.is_prefix_of(long),
        long.is_prefix_of(t),
    ensures
        short.is_prefix_of(t),
{
    assert(short =~= t.subrange(0, short.len() as int)) by {
        assert(short =~= long.subrange(0, short.len() as int));
        assert(long =~= t.subrange(0, long.len() as int));
        assert forall|i: int| 0 <= i < short.len() implies short[i] == t[i] by {
            assert(short[i] == long.subrange(0, short.len() as int)[i]);
            assert(long[i] == t.subrange(0, long.len() as int)[i]);
        }
    }
}

proof fn lemma_narrowed_subcommands(
    subs: Seq<CommandView>,
    ctx: ContextView,
    short: Seq<char>,
    long: Seq<char>,
)
    requires
        short.is_prefix_of(long),
    ensures
        matching_subcommands(subs, long) == matching_subcommands(subs, short).filter(stays(ctx, long)),
    decreases subs.len(),
{
    reveal(Seq::filter);
    let stay = stays(ctx, long);
    if subs.len() == 0 {
        assert(matching_subcommands(subs, long) =~= matching_subcommands(subs, short).filter(stay));
    } else {
        let most = subs.drop_last();
        let sub = subs.last();
        lemma_narrowed_subcommands(most, ctx, short, long);
        let wide = matching_subcommands(most, short);
        let narrow = matching_subcommands(most, long);
        if long.is_prefix_of(sub.name) {
            lemma_longer_prefix(short, long, sub.name);
            assert(matching_subcommands(subs, long) =~= narrow.push(of_subcommand(sub)));
        } else {
            assert(matching_subcommands(subs, long) =~= narrow);
        }
        if short.is_prefix_of(sub.name) {
            assert(matching_subcommands(subs, short) =~= wide.push(of_subcommand(sub)));
            assert(wide.push(of_subcommand(sub)).drop_last() =~= wide);
        } else {
            assert(matching_subcommands(subs, short) =~= wide);
        }
    }
}

proof fn lemma_narrowed_names(o: OptionView, ctx: ContextView, short: Seq<char>, long: Seq<char>, n: int)
    requires
        short.is_prefix_of(long),
        offers_options(ctx, long),
        0 <= n <= o.names.len(),
    ensures
        matching_names(o, long, n) == matching_names(o, short, n).filter(stays(ctx, long)),
    decreases n,
{
    reveal(Seq::filter);
    let stay = stays(ctx, long);
    if n == 0 {
        assert(matching_names(o, long, n) =~= matching_names(o, short, n).filter(stay));
    } else {
        let name = o.names[n - 1];
        lemma_narrowed_names(o, ctx, short, long, n - 1);
        let wide = matching_names(o, short, n - 1);
        let narrow = matching_names(o, long, n - 1);
        assert(o.names.take(n).drop_last() =~= o.names.take(n - 1));
        assert(o.names.take(n).last() == name);
        if long.is_prefix_of(name) {
            lemma_longer_prefix(short, long, name);
            assert(matching_names(o, long, n) =~= narrow.push(of_option(name, o)));
        } else {
            assert(matching_names(o, long, n) =~= narrow);
        }
        if short.is_prefix_of(name) {
            assert(matching_names(o, short, n) =~= wide.push(of_option(name, o)));
            assert(wide.push(of_option(name, o)).drop_last() =~= wide);
        } else {
            assert(matching_names(o, short, n) =~= wide);
        }
    }
}

proof fn lemma_narrowed_options(options: Seq<OptionView>, ctx: ContextView, short: Seq<char>, long: Seq<char>)
    requires
        short.is_prefix_of(long),
        offers_options(ctx, long),
    ensures
        matching_options(options, long) == matching_options(options, short).filter(stays(ctx, long)),
    decreases options.len(),
{
    let stay = stays(ctx, long);
    if options.len() == 0 {
        reveal(Seq::filter);
        assert(matching_options(options, long) =~= matching_options(options, short).filter(stay));
    } else {
        let o = options.last();
        lemma_narrowed_options(options.drop_last(), ctx, short, long);
        lemma_narrowed_names(o, ctx, short, long, o.names.len() as int);
        Seq::filter_distributes_over_add(
            matching_options(options.drop_last(), short),
            matching_names(o, short, o.names.len() as int),
            stay,
        );
    }
}

proof fn lemma_no_option_stays(options: Seq<OptionView>, ctx: ContextView, short: Seq<char>, long: Seq<char>)
    requires
        !offers_options(ctx, long),
    ensures
        matching_options(options, short).filter(stays(ctx, long)) == Seq::<SuggestionView>::empty(),
{
    let all = matching_options(options, short);
    let stay = stays(ctx, long);
    let left = all.filter(stay);
    lemma_matching_options(options, short);
    if left.len() > 0 {
        all.lemma_filter_pred(stay, 0);
        assert(left.contains(left[0]));
        all.lemma_filter_contains_rev(stay, left[0]);
        let i = choose|i: int| 0 <= i < all.len() && all[i] == left[0];
        assert(all[i].kind is Option);
    }
    assert(left =~= seq![]);
}

proof fn lemma_narrowed_candidates(ctx: ContextView, short: Seq<char>, long: Seq<char>)
    requires
        short.is_prefix_of(long),
        ctx.path.len() > 0,
        ctx.expecting is SubcommandOrOption || ctx.expecting is Option,
    ensures
        candidates(ctx, long) == candidates(ctx, short).filter(stays(ctx, long)),
{
    let current = ctx.path.last();
    let stay = stays(ctx, long);
    let none: Seq<SuggestionView> = seq![];
    lemma_narrowed_subcommands(current.subcommands, ctx, short, long);
    if offers_options(ctx, long) {
        lemma_narrowed_options(current.options, ctx, short, long);
        if text::is_flag(long) && short.len() > 0 {
            assert(short[0] == long.subrange(0, short.len() as int)[0]);
        }
        assert(offers_options(ctx, short));
    } else {
        lemma_no_option_stays(current.options, ctx, short, long);
        assert(none.filter(stay) =~= none) by {
            reveal(Seq::filter);
        }
    }
    let subs = matching_subcommands(current.subcommands, short);
    Seq::filter_distributes_over_add(subs, matching_options(current.options, short), stay);
    Seq::filter_distributes_over_add(subs, none, stay);
}

/// A longer prefix only narrows the list: it leaves suggestions out, and those
/// that stay keep their order. Where an argument or an option's value is
/// expected, the prefix makes no difference.
pub proof fn law_longer_prefix_narrows(ctx: ContextView, short: Seq<char>, long: Seq<char>)
    requires
        short.is_prefix_of(long),
    ensures
        ctx.expecting is SubcommandOrOption || ctx.expecting is Option ==> matches_for(ctx, long) == matches_for(
            ctx,
            short,
        ).filter(stays(ctx, long)),
        !(ctx.expecting is SubcommandOrOption || ctx.expecting is Option) ==> matches_for(ctx, long) == matches_for(
            ctx,
            short,
        ),
        sorting::is_subsequence(matches_for(ctx, long), matches_for(ctx, short)),
{
    let wide = candidates(ctx, short);
    let narrow = candidates(ctx, long);
    let key = |s: SuggestionView| sorting::plain_key(s.text);
    let same = |s: SuggestionView| s;
    let stay = stays(ctx, long);
    if ctx.path.len() > 0 && (ctx.expecting is SubcommandOrOption || ctx.expecting is Option) {
        lemma_narrowed_candidates(ctx, short, long);
        law_names_are_matched_by_prefix(ctx, short);
        law_names_are_matched_by_prefix(ctx, long);
        assert(rank_keys(wide, short) =~= wide.map_values(key));
        assert(rank_keys(narrow, long) =~= narrow.map_values(key));
        sorting::law_sorting_keeps_parts(wide, stay, key);
        sorting::law_filter_is_subsequence(matches_for(ctx, short), stay, same);
        assert(matches_for(ctx, short).map_values(same) =~= matches_for(ctx, short));
        assert(matches_for(ctx, long).map_values(same) =~= matches_for(ctx, long));
    } else {
        assert(wide.len() <= 1 && wide == narrow);
        law_ranking(wide, short);
        law_ranking(narrow, long);
        sorting::law_sort_is_stable(rank_keys(wide, short));
        sorting::law_sort_is_stable(rank_keys(wide, long));
        assert(matches_for(ctx, long) =~= wide);
        assert(matches_for(ctx, short) =~= wide);
        if wide.len() == 0 {
            assert(matches_for(ctx, short).filter(stay) =~= wide) by {
                reveal(Seq::filter);
            }
        }
        assert(sorting::picks(wide, wide, sorting::positions(0, wide.len() as int)));
    }
}

/// An argument as it is suggested: its name in angle brackets, its description,
/// and its generator if it names one.
pub open spec fn placeholder(a: ArgView) -> SuggestionView {
    SuggestionView {
        text: seq!['<'] + a.name + seq!['>'],
        description: a.description,
        kind: if a.generator is Some {
            SuggestionKind::GeneratedValue(a.generator->0)
        } else {
            SuggestionKind::StaticArg
        },
    }
}

proof fn lemma_ranking_of_one(list: Seq<SuggestionView>, prefix: Seq<char>)
    requires
        list.len() <= 1,
    ensures
        ranked(list, prefix) == list,
{
    law_ranking(list, prefix);
    sorting::law_sort_is_stable(rank_keys(list, prefix));
    assert(ranked(list, prefix) =~= list);
}

/// Where an argument is expected, it is the one suggestion, whatever was typed;
/// where an option's value is, the option's first argument is. Its generator, if
/// it names one, is the kind of the suggestion.
pub proof fn law_argument_is_suggested(ctx: ContextView, prefix: Seq<char>)
    requires
        ctx.path.len() > 0,
    ensures
        ctx.expecting matches ExpectingView::ArgValue(a) ==> matches_for(ctx, prefix) == seq![placeholder(a)],
        ctx.expecting matches ExpectingView::OptionValue(o) ==> matches_for(ctx, prefix) == (if o.args.len() > 0 {
            seq![placeholder(o.args[0])]
        } else {
            seq![]
        }),
        ctx.expecting is Done ==> matches_for(ctx, prefix) == Seq::<SuggestionView>::empty(),
{
    if !(ctx.expecting is SubcommandOrOption || ctx.expecting is Option) {
        lemma_ranking_of_one(candidates(ctx, prefix), prefix);
    }
}

/// Without a spec there is nothing to suggest.
pub proof fn law_no_spec_brings_nothing(ctx: ContextView, prefix: Seq<char>)
    requires
        ctx.path.len() == 0,
    ensures
        matches_for(ctx, prefix) == Seq::<SuggestionView>::empty(),
{
    lemma_ranking_of_one(candidates(ctx, prefix), prefix);
}

/// How many of the first `n` subcommands begin with `prefix` and are suggested
/// as `s`.
pub open spec fn subcommands_shown_as(subs: Seq<CommandView>, prefix: Seq<char>, s: SuggestionView, n: int) -> nat
    decreases n,
{
    if n <= 0 {
        0
    } else {
        let c = subs[n - 1];
        subcommands_shown_as(subs, prefix, s, n - 1) + if prefix.is_prefix_of(c.name) && s == (SuggestionView {
            text: c.name,
            description: c.description,
            kind: SuggestionKind::Subcommand,
        }) {
            1nat
        } else {
            0nat
        }
    }
}

/// How many of the first `n` spellings of `o` begin with `prefix` and are
/// suggested as `s`.
pub open spec fn spellings_shown_as(o: OptionView, prefix: Seq<char>, s: SuggestionView, n: int) -> nat
    decreases n,
{
    if n <= 0 {
        0
    } else {
        let name = o.names[n - 1];
        spellings_shown_as(o, prefix, s, n - 1) + if prefix.is_prefix_of(name) && s == (SuggestionView {
            text: name,
            description: o.description,
            kind: SuggestionKind::Option,
        }) {
            1nat
        } else {
            0nat
        }
    }
}

/// How many spellings of the first `n` options begin with `prefix` and are
/// suggested as `s`.
pub open spec fn options_shown_as(options: Seq<OptionView>, prefix: Seq<char>, s: SuggestionView, n: int) -> nat
    decreases n,
{
    if n <= 0 {
        0
    } else {
        options_shown_as(options, prefix, s, n - 1) + spellings_shown_as(
            options[n - 1],
            prefix,
            s,
            options[n - 1].names.len() as int,
        )
    }
}

proof fn lemma_count_subcommands(subs: Seq<CommandView>, prefix: Seq<char>, s: SuggestionView, n: int)
    requires
        0 <= n <= subs.len(),
    ensures
        matching_subcommands(subs.take(n), prefix).to_multiset().count(s) == subcommands_shown_as(
            subs,
            prefix,
            s,
            n,
        ),
    decreases n,
{
    reveal(Seq::filter);
    let part = matching_subcommands(subs.take(n), prefix);
    part.to_multiset_ensures();
    if n > 0 {
        lemma_count_subcommands(subs, prefix, s, n - 1);
        let less = matching_subcommands(subs.take(n - 1), prefix);
        let c = subs[n - 1];
        assert(subs.take(n).drop_last() =~= subs.take(n - 1));
        assert(subs.take(n).last() == c);
        less.to_multiset_ensures();
        if prefix.is_prefix_of(c.name) {
            assert(part =~= less.push(of_subcommand(c)));
            assert(less.push(of_subcommand(c)).to_multiset() =~= less.to_multiset().insert(of_subcommand(c)));
        } else {
            assert(part =~= less);
        }
    } else {
        assert(part =~= seq![]);
    }
}

proof fn lemma_count_spellings(o: OptionView, prefix: Seq<char>, s: SuggestionView, n: int)
    requires
        0 <= n <= o.names.len(),
    ensures
        matching_names(o, prefix, n).to_multiset().count(s) == spellings_shown_as(o, prefix, s, n),
    decreases n,
{
    reveal(Seq::filter);
    let part = matching_names(o, prefix, n);
    part.to_multiset_ensures();
    if n > 0 {
        lemma_count_spellings(o, prefix, s, n - 1);
        let less = matching_names(o, prefix, n - 1);
        let name = o.names[n - 1];
        assert(o.names.take(n).drop_last() =~= o.names.take(n - 1));
        assert(o.names.take(n).last() == name);
        less.to_multiset_ensures();
        if prefix.is_prefix_of(name) {
            assert(part =~= less.push(of_option(name, o)));
            assert(less.push(of_option(name, o)).to_multiset() =~= less.to_multiset().insert(of_option(name, o)));
        } else {
            assert(part =~= less);
        }
    } else {
        assert(part =~= seq![]);
    }
}

proof fn lemma_count_options(options: Seq<OptionView>, prefix: Seq<char>, s: SuggestionView, n: int)
    requires
        0 <= n <= options.len(),
    ensures
        matching_options(options.take(n), prefix).to_multiset().count(s) == options_shown_as(options, prefix, s, n),
    decreases n,
{
    let part = matching_options(options.take(n), prefix);
    part.to_multiset_ensures();
    if n > 0 {
        lemma_count_options(options, prefix, s, n - 1);
        let less = matching_options(options.take(n - 1), prefix);
        let o = options[n - 1];
        let own = matching_names(o, prefix, o.names.len() as int);
        assert(options.take(n).drop_last() =~= options.take(n - 1));
        assert(options.take(n).last() == o);
        lemma_count_spellings(o, prefix, s, o.names.len() as int);
        assert(part =~= less + own);
        vstd::seq_lib::lemma_multiset_commutative(less, own);
    } else {
        assert(part =~= seq![]);
    }
}

/// Where names are expected, every suggestion comes exactly as often as the spec
/// offers it: each subcommand whose name begins with what was typed, with its
/// name and description; and each spelling of an option that does, with its
/// option's description, if options are to be suggested at all. Where a
/// subcommand could stand too, that is if nothing or a dash was typed.
pub proof fn law_names_are_suggested_as_the_spec_has_them(ctx: ContextView, prefix: Seq<char>, s: SuggestionView)
    requires
        ctx.path.len() > 0,
        ctx.expecting is SubcommandOrOption || ctx.expecting is Option,
    ensures
        ({
            let c = ctx.path.last();
            matches_for(ctx, prefix).to_multiset().count(s) == (if ctx.expecting is SubcommandOrOption {
                subcommands_shown_as(c.subcommands, prefix, s, c.subcommands.len() as int)
            } else {
                0
            }) + (if ctx.expecting is Option || prefix.len() == 0 || prefix[0] == '-' {
                options_shown_as(c.options, prefix, s, c.options.len() as int)
            } else {
                0
            })
        }),
{
    let c = ctx.path.last();
    let subs = matching_subcommands(c.subcommands, prefix);
    let opts = matching_options(c.options, prefix);
    let all = candidates(ctx, prefix);
    lemma_count_subcommands(c.subcommands, prefix, s, c.subcommands.len() as int);
    lemma_count_options(c.options, prefix, s, c.options.len() as int);
    assert(c.subcommands.take(c.subcommands.len() as int) =~= c.subcommands);
    assert(c.options.take(c.options.len() as int) =~= c.options);
    law_ranking(all, prefix);
    vstd::seq_lib::lemma_multiset_commutative(subs, opts);
    if !(ctx.expecting is Option || prefix.len() == 0 || prefix[0] == '-') {
        assert(all =~= subs);
    }
}

/// Where names are expected, the suggestions come in the order of their texts.
pub proof fn law_names_are_in_order(ctx: ContextView, prefix: Seq<char>, a: int, b: int)
    requires
        ctx.expecting is SubcommandOrOption || ctx.expecting is Option,
        0 <= a < b < matches_for(ctx, prefix).len(),
    ensures
        sorting::text_le(matches_for(ctx, prefix)[a].text, matches_for(ctx, prefix)[b].text),
{
    let all = candidates(ctx, prefix);
    let keys = rank_keys(all, prefix);
    let order = sorting::sorted_positions(keys);
    sorting::law_sort_is_stable(keys);
    law_ranking(all, prefix);
    law_names_are_matched_by_prefix(ctx, prefix);
    assert(sorting::key_le(keys[order[a]], keys[order[b]]));
    assert(prefix.is_prefix_of(all[order[a]].text) && prefix.is_prefix_of(all[order[b]].text));
}

/// Of suggestions with the same text, subcommands come before options, and
/// subcommands in the order in which the spec lists them.
pub proof fn law_equal_texts_keep_the_order_of_the_spec(ctx: ContextView, prefix: Seq<char>, a: int, b: int)
    requires
        ctx.path.len() > 0,
        ctx.expecting is SubcommandOrOption,
        0 <= a < b < matches_for(ctx, prefix).len(),
        matches_for(ctx, prefix)[a].text == matches_for(ctx, prefix)[b].text,
        matches_for(ctx, prefix)[b].kind is Subcommand,
    ensures
        matches_for(ctx, prefix)[a].kind is Subcommand,
        exists|i: int, j: int|
            {
                &&& 0 <= i < j < ctx.path.last().subcommands.len()
                &&& (#[trigger] ctx.path.last().subcommands[i]).name == matches_for(ctx, prefix)[a].text
                &&& ctx.path.last().subcommands[i].description == matches_for(ctx, prefix)[a].description
                &&& (#[trigger] ctx.path.last().subcommands[j]).name == matches_for(ctx, prefix)[b].text
                &&& ctx.path.last().subcommands[j].description == matches_for(ctx, prefix)[b].description
            },
{
    let subs = ctx.path.last().subcommands;
    let shown = matching_subcommands(subs, prefix);
    let opts = matching_options(ctx.path.last().options, prefix);
    let all = candidates(ctx, prefix);
    lemma_matching_subcommands(subs, prefix);
    lemma_matching_options(ctx.path.last().options, prefix);
    law_ranking_keeps_spec_order(all, prefix, a, b);
    let (x, y) = choose|x: int, y: int|
        0 <= x < y < all.len() && matches_for(ctx, prefix)[a] == #[trigger] all[x] && matches_for(ctx, prefix)[b]
            == #[trigger] all[y];
    if y >= shown.len() {
        assert(all[y] == opts[y - shown.len()]);
    }
    assert(all[x] == shown[x] && all[y] == shown[y]);
    let p = |s: CommandView| prefix.is_prefix_of(s.name);
    let f = |s: CommandView| of_subcommand(s);
    sorting::law_filter_is_subsequence(subs, p, f);
    let at = choose|at: Seq<int>| sorting::picks(shown, subs.map_values(f), at);
    assert(0 <= at[x] < subs.len() && 0 <= at[y] < subs.len());
    assert(at[x] < at[y]);
    assert(subs[at[x]].name == all[x].text && subs[at[y]].name == all[y].text);
}

/// What a suggestion stands for leaves nothing out.
pub proof fn law_suggestion_shows_every_field(s: &Suggestion)
    ensures
        s@.text == s.text@,
        s.description is None <==> s@.description is None,
        s.description is Some ==> s@.description == Some(s.description->0@),
        s@.kind == s.kind,
{
}

} // verus!
