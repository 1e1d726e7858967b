//! The completion-spec schema: what a CLI looks like to the suggestion engine.
//!
//! A spec describes a command's subcommand tree, its options, its positional
//! arguments and the dynamic generators that may fill them in. Generators are
//! an enum, never arbitrary code: a spec can only name operations that the
//! program already knows.

use vstd::prelude::*;

verus! {

broadcast use vstd::seq_lib::group_seq_properties;

/// The set of dynamic generators that the engine knows how to run.
#[derive(Debug, Clone, Copy, PartialEq, Eq, Structural)]
pub enum GeneratorKind {
    /// Complete to file paths relative to cwd.
    FilePath,
    /// Complete to directory paths relative to cwd.
    DirPath,
    /// Local git branch names.
    GitBranches,
    /// Script names from `package.json`'s `scripts` block.
    PackageJsonScripts,
}

/// A positional or option-value argument.
#[derive(Debug, PartialEq, Eq)]
pub struct ArgSpec {
    /// Human-facing name for the arg slot (e.g. `"branch"`, `"path"`).
    pub name: String,
    pub description: Option<String>,
    /// Optional dynamic-completion generator.
    pub generator: Option<GeneratorKind>,
}

/// A flag/option, e.g. `-v` / `--verbose` or `--message <msg>`.
#[derive(Debug, PartialEq, Eq)]
pub struct OptionSpec {
    /// All accepted spellings, e.g. `["--message", "-m"]`. Conventionally
    /// long-form first.
    pub names: Vec<String>,
    pub description: Option<String>,
    /// If the option takes a value, the schema for that value lives here.
    /// Empty when the option is a pure boolean flag.
    pub args: Vec<ArgSpec>,
}

/// A single CLI tool's complete completion specification.
#[derive(Debug, PartialEq, Eq)]
pub struct CommandSpec {
    /// Canonical name. For `git`, this is `"git"`.
    pub name: String,
    /// One-liner shown alongside the command in suggestions.
    pub description: Option<String>,
    /// Nested subcommand tree.
    pub subcommands: Vec<CommandSpec>,
    /// Flags/options that apply at this command level.
    pub options: Vec<OptionSpec>,
    /// Positional arguments (in order). Most commands have 0-1.
    pub args: Vec<ArgSpec>,
}

/// What an [`ArgSpec`] stands for.
pub struct ArgView {
    pub name: Seq<char>,
    pub description: Option<Seq<char>>,
    pub generator: Option<GeneratorKind>,
}

/// What an [`OptionSpec`] stands for.
pub struct OptionView {
    pub names: Seq<Seq<char>>,
    pub description: Option<Seq<char>>,
    pub args: Seq<ArgView>,
}

/// What a [`CommandSpec`] stands for.
pub struct CommandView {
    pub name: Seq<char>,
    pub description: Option<Seq<char>>,
    pub subcommands: Seq<CommandView>,
    pub options: Seq<OptionView>,
    pub args: Seq<ArgView>,
}

/// The characters of an optional text.
pub open spec fn opt_text(o: Option<String>) -> Option<Seq<char>> {
    match o {
        Some(s) => Some(s@),
        None => None,
    }
}

/// The characters of each text of a list.
pub open spec fn texts(list: Seq<String>) -> Seq<Seq<char>> {
    list.map_values(|s: String| s@)
}

/// What the arguments of a list stand for.
pub open spec fn arg_views(list: Seq<ArgSpec>) -> Seq<ArgView> {
    list.map_values(|a: ArgSpec| a@)
}

/// What the options of a list stand for.
pub open spec fn option_views(list: Seq<OptionSpec>) -> Seq<OptionView> {
    list.map_values(|o: OptionSpec| o@)
}

impl View for ArgSpec {
    type V = ArgView;

    open spec fn view(&self) -> ArgView {
        ArgView { name: self.name@, description: opt_text(self.description), generator: self.generator }
    }
}

impl View for OptionSpec {
    type V = OptionView;

    open spec fn view(&self) -> OptionView {
        OptionView {
            names: texts(self.names@),
            description: opt_text(self.description),
            args: arg_views(self.args@),
        }
    }
}

impl View for CommandSpec {
    type V = CommandView;

    open spec fn view(&self) -> CommandView
        decreases self,
    {
        CommandView {
            name: self.name@,
            description: opt_text(self.description),
            subcommands: Seq::new(
                self.subcommands@.len(),
                |i: int|
                    if 0 <= i < self.subcommands@.len() {
                        self.subcommands@[i].view()
                    } else {
                        arbitrary()
                    },
            ),
            options: option_views(self.options@),
            args: arg_views(self.args@),
        }
    }
}

/// The subcommands of what a spec stands for are what its subcommands stand for.
pub proof fn lemma_subcommand_views(c: &CommandSpec)
    ensures
        c@.subcommands.len() == c.subcommands@.len(),
        forall|i: int| 0 <= i < c.subcommands@.len() ==> #[trigger] c@.subcommands[i] == c.subcommands@[i]@,
{
    reveal_with_fuel(<CommandSpec as View>::view, 2);
}

/// A copy of an optional text.
pub fn clone_text(o: &Option<String>) -> (r: Option<String>)
    ensures
        opt_text(r) == opt_text(*o),
{
    match o {
        Some(s) => Some(s.clone()),
        None => None,
    }
}

fn clone_args(list: &Vec<ArgSpec>) -> (r: Vec<ArgSpec>)
    ensures
        arg_views(r@) == arg_views(list@),
{
    let mut r: Vec<ArgSpec> = Vec::new();
    let mut i: usize = 0;
    while i < list.len()
        invariant
            i <= list@.len(),
            r@.len() == i,
            forall|k: int| 0 <= k < i ==> (#[trigger] r@[k])@ == list@[k]@,
        decreases list@.len() - i,
    {
        r.push(list[i].clone());
        i += 1;
    }
    assert(arg_views(r@) =~= arg_views(list@));
    r
}

fn clone_options(list: &Vec<OptionSpec>) -> (r: Vec<OptionSpec>)
    ensures
        option_views(r@) == option_views(list@),
{
    let mut r: Vec<OptionSpec> = Vec::new();
    let mut i: usize = 0;
    while i < list.len()
        invariant
            i <= list@.len(),
            r@.len() == i,
            forall|k: int| 0 <= k < i ==> (#[trigger] r@[k])@ == list@[k]@,
        decreases list@.len() - i,
    {
        r.push(list[i].clone());
        i += 1;
    }
    assert(option_views(r@) =~= option_views(list@));
    r
}

impl Clone for ArgSpec {
    fn clone(&self) -> (r: Self)
        ensures
            r@ == self@,
    {
        ArgSpec { name: self.name.clone(), description: clone_text(&self.description), generator: self.generator }
    }
}

impl Clone for OptionSpec {
    fn clone(&self) -> (r: Self)
        ensures
            r@ == self@,
    {
        let mut names: Vec<String> = Vec::new();
        let mut i: usize = 0;
        while i < self.names.len()
            invariant
                i <= self.names@.len(),
                names@.len() == i,
                forall|k: int| 0 <= k < i ==> (#[trigger] names@[k])@ == self.names@[k]@,
            decreases self.names@.len() - i,
        {
            names.push(self.names[i].clone());
            i += 1;
        }
        assert(texts(names@) =~= texts(self.names@));
        OptionSpec { names, description: clone_text(&self.description), args: clone_args(&self.args) }
    }
}

impl Clone for CommandSpec {
    fn clone(&self) -> (r: Self)
        ensures
            r@ == self@,
        decreases self,
    {
        let mut subcommands: Vec<CommandSpec> = Vec::new();
        let mut i: usize = 0;
        while i < self.subcommands.len()
            invariant
                i <= self.subcommands@.len(),
                subcommands@.len() == i,
                forall|k: int| 0 <= k < i ==> (#[trigger] subcommands@[k])@ == self.subcommands@[k]@,
            decreases self.subcommands@.len() - i,
        {
            let sub = &self.subcommands[i];
            subcommands.push(sub.clone());
            i += 1;
        }
        let r = CommandSpec {
            name: self.name.clone(),
            description: clone_text(&self.description),
            subcommands,
            options: clone_options(&self.options),
            args: clone_args(&self.args),
        };
        proof {
            lemma_subcommand_views(&r);
            lemma_subcommand_views(self);
            assert(r@.subcommands =~= self@.subcommands);
        }
        r
    }
}

/// What a spec stands for leaves nothing out: every field of an argument, of an
/// option and of a command is there as it is, the subcommands too.
pub proof fn law_views_show_every_field(a: &ArgSpec, o: &OptionSpec, c: &CommandSpec)
    ensures
        a@.name == a.name@,
        a.description is None <==> a@.description is None,
        a.description is Some ==> a@.description == Some(a.description->0@),
        a@.generator == a.generator,
        o@.names.len() == o.names@.len(),
        forall|i: int| 0 <= i < o.names@.len() ==> #[trigger] o@.names[i] == o.names@[i]@,
        o.description is None <==> o@.description is None,
        o.description is Some ==> o@.description == Some(o.description->0@),
        o@.args.len() == o.args@.len(),
        forall|i: int| 0 <= i < o.args@.len() ==> #[trigger] o@.args[i] == o.args@[i]@,
        c@.name == c.name@,
        c.description is None <==> c@.description is None,
        c.description is Some ==> c@.description == Some(c.description->0@),
        c@.subcommands.len() == c.subcommands@.len(),
        forall|i: int| 0 <= i < c.subcommands@.len() ==> #[trigger] c@.subcommands[i] == c.subcommands@[i]@,
        c@.options.len() == c.options@.len(),
        forall|i: int| 0 <= i < c.options@.len() ==> #[trigger] c@.options[i] == c.options@[i]@,
        c@.args.len() == c.args@.len(),
        forall|i: int| 0 <= i < c.args@.len() ==> #[trigger] c@.args[i] == c.args@[i]@,
{
    lemma_subcommand_views(c);
}

} // verus!
