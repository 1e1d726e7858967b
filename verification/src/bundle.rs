//! The bundled completion specs.
//!
//! The spec files are embedded in the program as an `include_dir` directory. A
//! [`SpecDb`] finds them by command name and keeps what was parsed, so that no
//! file is parsed twice. Turning a file's text into a [`CommandSpec`] is left to
//! the caller.

use include_dir::Dir;
use vstd::hash_map::StringHashMap;
use vstd::prelude::*;
use vstd::string::*;

use crate::schema;
use crate::schema::CommandSpec;
use crate::schema::CommandView;
use crate::text;

verus! {

/// `include_dir::Dir`, a directory tree embedded in the program.
#[verifier::external_type_specification]
#[verifier::external_body]
pub struct ExDir<'a>(include_dir::Dir<'a>);

/// What the directory tree holds, as `include_dir::Dir::get_entry` finds it:
/// under each path at which there is an entry, the contents of the file there,
/// or nothing if a directory is there.
pub uninterp spec fn entries_by_path(dir: Dir<'static>) -> Map<Seq<char>, Option<Seq<u8>>>;

/// The paths of the files directly in the directory, as `include_dir::Dir::files`
/// lists them.
pub uninterp spec fn file_paths(dir: Dir<'static>) -> Seq<Seq<char>>;

/// The text of the file at a path, if there is a file and it is UTF-8.
pub open spec fn text_at(entries: Map<Seq<char>, Option<Seq<u8>>>, path: Seq<char>) -> Option<Seq<char>> {
    if entries.contains_key(path) {
        match entries[path] {
            Some(contents) => text::decoded(contents),
            None => None,
        }
    } else {
        None
    }
}

/// Calls `include_dir::Dir::get_file` and `include_dir::File::contents_utf8`.
/// The claim: a text comes back exactly if the entry at the path is a file with
/// well-formed UTF-8 contents, and it is what the contents encode.
#[verifier::external_body]
fn find_text(dir: &Dir<'static>, path: &str) -> (r: Option<&'static str>)
    ensures
        match r {
            Some(t) => text_at(entries_by_path(*dir), path@) == Some(t@),
            None => text_at(entries_by_path(*dir), path@) is None,
        },
{
    dir.get_file(path)?.contents_utf8()
}

/// Calls `include_dir::Dir::files`, and `include_dir::File::path` on each file.
/// The claim: the paths are handed out in the directory's order, and the tree
/// has an entry at each of them. Which entry that is stays unsaid: a directory
/// tree put together by hand can hold a second one under the same path.
#[verifier::external_body]
fn list_files(dir: &Dir<'static>) -> (r: Vec<String>)
    ensures
        schema::texts(r@) == file_paths(*dir),
        forall|i: int| 0 <= i < r@.len() ==> entries_by_path(*dir).contains_key(#[trigger] r@[i]@),
{
    dir.files().map(|f| f.path().to_string_lossy().into_owned()).collect()
}

/// Filename suffix that marks a bundled spec.
pub const SPEC_SUFFIX: &'static str = ".hintkitspec.json";

/// The name of the file that holds the spec of the command `name`.
pub open spec fn spec_file(name: Seq<char>) -> Seq<char> {
    name + SPEC_SUFFIX@
}

/// The name of the file that holds the spec of the command `name`.
pub fn spec_file_name(name: &str) -> (r: String)
    ensures
        r@ == spec_file(name@),
{
    name.to_owned().concat(SPEC_SUFFIX)
}

/// The final component of a path, if there is one: what follows the last
/// slash, where slashes at the end and the components `.` before them do not
/// count. A path that ends in `..` has none.
pub open spec fn file_name(path: Seq<char>) -> Option<Seq<char>>
    decreases path.len(),
{
    let n = path.len() as int;
    if n == 0 {
        None
    } else if path[n - 1] == '/' || (n >= 2 && path[n - 1] == '.' && path[n - 2] == '/') {
        file_name(path.drop_last())
    } else {
        let last = path.skip(part_start(path, n));
        if last == seq!['.'] || last == seq!['.', '.'] {
            None
        } else {
            Some(last)
        }
    }
}

/// Where the part of `path` that ends at `end` starts: behind the slash before
/// it, or at the start.
pub open spec fn part_start(path: Seq<char>, end: int) -> int
    decreases end,
{
    if 0 < end <= path.len() && path[end - 1] != '/' {
        part_start(path, end - 1)
    } else {
        end
    }
}

/// `text` without `suffix`, if it ends with it.
pub open spec fn without_suffix(text: Seq<char>, suffix: Seq<char>) -> Option<Seq<char>> {
    if suffix.len() <= text.len() && text.skip(text.len() - suffix.len()) == suffix {
        Some(text.take(text.len() - suffix.len()))
    } else {
        None
    }
}

/// The command whose spec the file at `path` holds, if it holds one.
pub open spec fn command_of(path: Seq<char>) -> Option<Seq<char>> {
    match file_name(path) {
        Some(file) => without_suffix(file, SPEC_SUFFIX@),
        None => None,
    }
}

/// The commands whose specs the files at `paths` hold, in the same order.
pub open spec fn commands_of(paths: Seq<Seq<char>>) -> Seq<Seq<char>>
    decreases paths.len(),
{
    if paths.len() == 0 {
        seq![]
    } else {
        let before = commands_of(paths.drop_last());
        match command_of(paths.last()) {
            Some(name) => before.push(name),
            None => before,
        }
    }
}

/// Where `path` ends once slashes at its end, and components `.` before them,
/// are left out.
fn path_end(path: &str, chars: &Vec<char>) -> (end: usize)
    requires
        chars@ == path@,
    ensures
        end <= path@.len(),
        file_name(path@) == file_name(path@.take(end as int)),
        end > 0 ==> path@[end - 1] != '/' && !(end >= 2 && path@[end - 1] == '.' && path@[end - 2] == '/'),
{
    let mut end: usize = chars.len();
    assert(path@.take(end as int) =~= path@);
    while end > 0 && (chars[end - 1] == '/' || (end >= 2 && chars[end - 1] == '.' && chars[end - 2] == '/'))
        invariant
            chars@ == path@,
            end <= path@.len(),
            file_name(path@) == file_name(path@.take(end as int)),
        decreases end,
    {
        assert(path@.take(end as int).drop_last() =~= path@.take(end - 1));
        end -= 1;
    }
    end
}

/// Where the part of `path` that ends at `end` starts.
fn component_start(path: &str, chars: &Vec<char>, end: usize) -> (start: usize)
    requires
        chars@ == path@,
        end <= path@.len(),
    ensures
        start <= end,
        start == part_start(path@.take(end as int), end as int),
{
    let ghost head = path@.take(end as int);
    let mut start: usize = end;
    while start > 0 && chars[start - 1] != '/'
        invariant
            chars@ == path@,
            start <= end <= path@.len(),
            head == path@.take(end as int),
            part_start(head, end as int) == part_start(head, start as int),
        decreases start,
    {
        start -= 1;
    }
    start
}

/// The final component of `path`.
fn final_component(path: &str) -> (r: Option<&str>)
    ensures
        match r {
            Some(file) => file_name(path@) == Some(file@),
            None => file_name(path@) is None,
        },
{
    let chars = text::chars_of(path);
    let end = path_end(path, &chars);
    if end == 0 {
        return None;
    }
    let start = component_start(path, &chars, end);
    let file = path.substring_char(start, end);
    proof {
        assert(file@ =~= path@.take(end as int).skip(start as int));
        reveal_strlit(".");
        reveal_strlit("..");
        assert("."@ =~= seq!['.']);
        assert(".."@ =~= seq!['.', '.']);
    }
    if text::same_text(file, ".") || text::same_text(file, "..") {
        return None;
    }
    Some(file)
}

/// `text` without `suffix` at its end.
fn strip_suffix<'a>(text: &'a str, suffix: &str) -> (r: Option<&'a str>)
    ensures
        match r {
            Some(t) => without_suffix(text@, suffix@) == Some(t@),
            None => without_suffix(text@, suffix@) is None,
        },
{
    let len = text.unicode_len();
    let suffix_len = suffix.unicode_len();
    if suffix_len > len {
        return None;
    }
    let cut: usize = len - suffix_len;
    let tail = text.substring_char(cut, len);
    assert(tail@ =~= text@.skip(cut as int));
    if text::same_text(tail, suffix) {
        let rest = text.substring_char(0, cut);
        assert(rest@ =~= text@.take(cut as int));
        Some(rest)
    } else {
        None
    }
}

/// The command whose spec the file at `path` holds.
fn command_name(path: &str) -> (r: Option<String>)
    ensures
        schema::opt_text(r) == command_of(path@),
{
    match final_component(path) {
        Some(file) => match strip_suffix(file, SPEC_SUFFIX) {
            Some(name) => Some(name.to_owned()),
            None => None,
        },
        None => None,
    }
}

/// What a [`SpecDb`] stands for.
pub struct DbView {
    /// What the bundled directory tree holds, by path.
    pub entries: Map<Seq<char>, Option<Seq<u8>>>,
    /// The paths of the bundled files.
    pub paths: Seq<Seq<char>>,
    /// The specs parsed so far, by command name.
    pub cache: Map<Seq<char>, CommandView>,
}

/// Lookup-by-name registry over the bundled specs. Parses are cached per spec
/// so that the same file is never parsed again.
pub struct SpecDb {
    dir: Dir<'static>,
    cache: StringHashMap<CommandSpec>,
}

impl View for SpecDb {
    type V = DbView;

    closed spec fn view(&self) -> DbView {
        DbView {
            entries: entries_by_path(self.dir),
            paths: file_paths(self.dir),
            cache: self.cache@.map_values(|c: CommandSpec| c@),
        }
    }
}

/// The text of the bundled spec for `name`, if there is one.
pub open spec fn bundled_text(db: DbView, name: Seq<char>) -> Option<Seq<char>> {
    text_at(db.entries, spec_file(name))
}

/// What an optional spec stands for.
pub open spec fn opt_command(c: Option<CommandSpec>) -> Option<CommandView> {
    match c {
        Some(spec) => Some(spec@),
        None => None,
    }
}

/// The database once the text of `name` was parsed, with what came of it.
pub open spec fn accepted(db: DbView, name: Seq<char>, parsed: Option<CommandView>) -> DbView {
    match parsed {
        Some(spec) => DbView { cache: db.cache.insert(name, spec), ..db },
        None => db,
    }
}

/// The text that has to be parsed to look up `name`, if any.
pub open spec fn to_parse(db: DbView, name: Seq<char>) -> Option<Seq<char>> {
    if db.cache.contains_key(name) {
        None
    } else {
        bundled_text(db, name)
    }
}

/// What looking up `name` does to the database and returns, where parsing its
/// text, should it come to that, gives `parsed`.
pub open spec fn looked_up(db: DbView, name: Seq<char>, parsed: Option<CommandView>) -> (DbView, Option<CommandView>) {
    if db.cache.contains_key(name) {
        (db, Some(db.cache[name]))
    } else if bundled_text(db, name) is None {
        (db, None)
    } else {
        (accepted(db, name, parsed), parsed)
    }
}

impl SpecDb {
    /// A database over the files in `dir`, with nothing parsed yet.
    pub fn new(dir: Dir<'static>) -> (r: SpecDb)
        ensures
            r@ == (DbView {
                entries: entries_by_path(dir),
                paths: file_paths(dir),
                cache: Map::<Seq<char>, CommandView>::empty(),
            }),
    {
        let r = SpecDb { dir, cache: StringHashMap::new() };
        assert(r@.cache =~= Map::<Seq<char>, CommandView>::empty());
        r
    }

    /// The spec that an earlier lookup of `name` left behind.
    pub fn cached(&self, name: &str) -> (r: Option<CommandSpec>)
        ensures
            opt_command(r) == (if self@.cache.contains_key(name@) {
                Some(self@.cache[name@])
            } else {
                None
            }),
    {
        match self.cache.get(name) {
            Some(c) => Some(c.clone()),
            None => None,
        }
    }

    /// The text of the bundled spec for `name`.
    pub fn source(&self, name: &str) -> (r: Option<&'static str>)
        ensures
            match r {
                Some(t) => bundled_text(self@, name@) == Some(t@),
                None => bundled_text(self@, name@) is None,
            },
    {
        let filename = spec_file_name(name);
        find_text(&self.dir, filename.as_str())
    }

    /// Keeps what came of parsing the text of `name`, and hands it back.
    pub fn accept(&mut self, name: &str, parsed: Option<CommandSpec>) -> (r: Option<CommandSpec>)
        ensures
            final(self)@ == accepted(old(self)@, name@, opt_command(parsed)),
            opt_command(r) == opt_command(parsed),
    {
        match parsed {
            Some(c) => {
                let r = c.clone();
                self.cache.insert(name.to_owned(), c);
                assert(self@.cache =~= old(self)@.cache.insert(name@, c@));
                Some(r)
            },
            None => None,
        }
    }

    /// Return the bundled spec for `name`, parsed by `parse` and cached.
    ///
    /// Returns `None` if there is no bundled spec, or if it failed to parse.
    pub fn lookup<F: Fn(&str) -> Option<CommandSpec>>(&mut self, name: &str, parse: F) -> (r: Option<CommandSpec>)
        requires
            forall|t: &str| call_requires(parse, (t,)),
        ensures
            to_parse(old(self)@, name@) is None ==> (final(self)@, opt_command(r)) == looked_up(
                old(self)@,
                name@,
                None,
            ),
            to_parse(old(self)@, name@) matches Some(wanted) ==> exists|t: &str, parsed: Option<CommandSpec>|
                #[trigger] call_ensures(parse, (t,), parsed) && t@ == wanted && (final(self)@, opt_command(r))
                    == looked_up(old(self)@, name@, opt_command(parsed)),
    {
        if let Some(c) = self.cached(name) {
            return Some(c);
        }
        match self.source(name) {
            None => None,
            Some(t) => {
                let parsed = parse(t);
                self.accept(name, parsed)
            },
        }
    }

    /// Every bundled spec name, in the order of the bundled files.
    pub fn names(&self) -> (r: Vec<String>)
        ensures
            schema::texts(r@) == commands_of(self@.paths),
            forall|i: int| 0 <= i < self@.paths.len() ==> self@.entries.contains_key(#[trigger] self@.paths[i]),
    {
        let files = list_files(&self.dir);
        let ghost paths = schema::texts(files@);
        let mut r: Vec<String> = Vec::new();
        let mut i: usize = 0;
        assert(schema::texts(r@) =~= commands_of(paths.take(0)));
        while i < files.len()
            invariant
                i <= files@.len(),
                paths == schema::texts(files@),
                schema::texts(r@) == commands_of(paths.take(i as int)),
            decreases files@.len() - i,
        {
            let ghost before = r@;
            proof {
                assert(paths.take(i + 1).drop_last() =~= paths.take(i as int));
                assert(paths.take(i + 1).last() == files@[i as int]@);
            }
            if let Some(name) = command_name(files[i].as_str()) {
                r.push(name);
                assert(schema::texts(r@) =~= schema::texts(before).push(name@));
            }
            i += 1;
        }
        assert(paths.take(paths.len() as int) =~= paths);
        assert forall|k: int| 0 <= k < self@.paths.len() implies self@.entries.contains_key(
            #[trigger] self@.paths[k],
        ) by {
            assert(self@.paths[k] == files@[k]@);
        }
        r
    }
}

/// Once a lookup has found a spec, every later lookup of that name finds the
/// same spec, whatever a second parse would give, and changes nothing.
pub proof fn law_lookup_is_cached(
    db: DbView,
    name: Seq<char>,
    parsed: Option<CommandView>,
    parsed_again: Option<CommandView>,
)
    requires
        looked_up(db, name, parsed).1 is Some,
    ensures
        looked_up(looked_up(db, name, parsed).0, name, parsed_again) == looked_up(db, name, parsed),
{
}

/// A lookup that finds nothing leaves the database as it was.
pub proof fn law_failed_lookup_changes_nothing(db: DbView, name: Seq<char>, parsed: Option<CommandView>)
    requires
        looked_up(db, name, parsed).1 is None,
    ensures
        looked_up(db, name, parsed).0 == db,
{
}

/// A lookup of one name does not touch what another lookup of another name finds.
pub proof fn law_lookups_are_independent(
    db: DbView,
    name: Seq<char>,
    parsed: Option<CommandView>,
    other: Seq<char>,
    parsed_other: Option<CommandView>,
)
    requires
        name != other,
    ensures
        looked_up(looked_up(db, name, parsed).0, other, parsed_other).1 == looked_up(db, other, parsed_other).1,
{
}

/// A name without a bundled file is never found, unless it is in the cache.
pub proof fn law_unknown_name_is_not_found(db: DbView, name: Seq<char>, parsed: Option<CommandView>)
    requires
        !db.cache.contains_key(name),
        !db.entries.contains_key(spec_file(name)),
    ensures
        looked_up(db, name, parsed) == (db, None::<CommandView>),
{
}

/// A name is listed exactly if one of the bundled files holds its spec.
pub proof fn law_listed_names(paths: Seq<Seq<char>>, name: Seq<char>)
    ensures
        commands_of(paths).contains(name) <==> exists|i: int|
            0 <= i < paths.len() && command_of(#[trigger] paths[i]) == Some(name),
    decreases paths.len(),
{
    if paths.len() > 0 {
        let rest = paths.drop_last();
        law_listed_names(rest, name);
        let all = commands_of(paths);
        let before = commands_of(rest);
        if all.contains(name) {
            if before.contains(name) {
                let i = choose|i: int| 0 <= i < rest.len() && command_of(#[trigger] rest[i]) == Some(name);
                assert(paths[i] == rest[i]);
            } else {
                assert(command_of(paths[paths.len() - 1]) == Some(name));
            }
        }
        if exists|i: int| 0 <= i < paths.len() && command_of(#[trigger] paths[i]) == Some(name) {
            let i = choose|i: int| 0 <= i < paths.len() && command_of(#[trigger] paths[i]) == Some(name);
            if i < rest.len() {
                assert(rest[i] == paths[i]);
                let k = choose|k: int| 0 <= k < before.len() && before[k] == name;
                assert(all[k] == name);
            } else {
                assert(all[all.len() - 1] == name);
            }
        }
    }
}

/// A path without a slash is the file's name, so a spec file directly in the
/// bundled directory is listed under the very name that a lookup finds it by.
pub proof fn law_top_level_spec_is_listed(name: Seq<char>)
    requires
        !name.contains('/'),
    ensures
        command_of(spec_file(name)) == Some(name),
{
    let path = spec_file(name);
    reveal_strlit(".hintkitspec.json");
    let n = path.len() as int;
    assert(path[n - 1] == 'n');
    assert forall|k: int| 0 <= k < n implies path[k] != '/' by {
        if k < name.len() {
            assert(name.contains(name[k]));
        }
    }
    lemma_part_start_without_slash(path, n);
    assert(path.skip(0) =~= path);
    assert(path != seq!['.']) by {
        assert(path.len() >= 17);
    }
    assert(path != seq!['.', '.']) by {
        assert(path.len() >= 17);
    }
    assert(path.skip(n - SPEC_SUFFIX@.len()) =~= SPEC_SUFFIX@);
    assert(path.take(n - SPEC_SUFFIX@.len()) =~= name);
}

proof fn lemma_part_start_without_slash(path: Seq<char>, end: int)
    requires
        0 <= end <= path.len(),
        forall|k: int| 0 <= k < path.len() ==> path[k] != '/',
    ensures
        part_start(path, end) == 0,
    decreases end,
{
    if end > 0 {
        lemma_part_start_without_slash(path, end - 1);
    }
}

/// A listed name is found again: if its file stands directly in the bundled
/// directory, the entry at that path is that file, and its text is UTF-8 and
/// parses, then looking up the name succeeds.
pub proof fn law_listed_names_are_found(db: DbView, i: int, name: Seq<char>, parsed: Option<CommandView>)
    requires
        0 <= i < db.paths.len(),
        db.entries.contains_key(db.paths[i]),
        command_of(db.paths[i]) == Some(name),
        !db.paths[i].contains('/'),
        db.entries[db.paths[i]] is Some,
        text::decoded(db.entries[db.paths[i]]->0) is Some,
        parsed is Some,
    ensures
        commands_of(db.paths).contains(name),
        looked_up(db, name, parsed).1 is Some,
{
    law_listed_names(db.paths, name);
    lemma_flat_path(db.paths[i], name);
}

proof fn lemma_flat_path(path: Seq<char>, name: Seq<char>)
    requires
        !path.contains('/'),
        command_of(path) == Some(name),
    ensures
        path == spec_file(name),
{
    assert forall|k: int| 0 <= k < path.len() implies path[k] != '/' by {
        assert(path.contains(path[k]));
    }
    lemma_part_start_without_slash(path, path.len() as int);
    let file = file_name(path)->0;
    assert(file =~= path) by {
        assert(path.skip(0) =~= path);
    }
    let cut = path.len() - SPEC_SUFFIX@.len();
    assert(path =~= path.take(cut) + path.skip(cut));
}

/// Distinct files directly in the bundled directory are listed under distinct
/// names: no name is listed twice.
pub proof fn law_listed_names_are_distinct(paths: Seq<Seq<char>>)
    requires
        paths.no_duplicates(),
        forall|i: int| 0 <= i < paths.len() ==> !(#[trigger] paths[i]).contains('/'),
    ensures
        commands_of(paths).no_duplicates(),
    decreases paths.len(),
{
    if paths.len() > 0 {
        let rest = paths.drop_last();
        let path = paths[paths.len() - 1];
        assert forall|i: int| 0 <= i < rest.len() implies !(#[trigger] rest[i]).contains('/') by {
            assert(rest[i] == paths[i]);
        }
        law_listed_names_are_distinct(rest);
        if let Some(name) = command_of(path) {
            let before = commands_of(rest);
            law_listed_names(rest, name);
            lemma_flat_path(path, name);
            if before.contains(name) {
                let i = choose|i: int| 0 <= i < rest.len() && command_of(#[trigger] rest[i]) == Some(name);
                lemma_flat_path(rest[i], name);
                assert(paths[i] == path);
            }
            assert forall|a: int, b: int| 0 <= a < b < before.push(name).len() implies before.push(name)[a]
                != before.push(name)[b] by {
                assert(before.contains(before.push(name)[a]));
            }
        }
    }
}

/// The database after several lookups, each with what its parse gave.
pub open spec fn after_lookups(db: DbView, steps: Seq<(Seq<char>, Option<CommandView>)>) -> DbView
    decreases steps.len(),
{
    if steps.len() == 0 {
        db
    } else {
        looked_up(after_lookups(db, steps.drop_last()), steps.last().0, steps.last().1).0
    }
}

/// Once a lookup has found a spec, every later lookup of that name finds the
/// same spec, whatever was looked up in between.
pub proof fn law_found_specs_stay_found(
    db: DbView,
    name: Seq<char>,
    parsed: Option<CommandView>,
    steps: Seq<(Seq<char>, Option<CommandView>)>,
    parsed_again: Option<CommandView>,
)
    requires
        looked_up(db, name, parsed).1 is Some,
    ensures
        ({
            let later = after_lookups(looked_up(db, name, parsed).0, steps);
            looked_up(later, name, parsed_again) == (later, looked_up(db, name, parsed).1)
        }),
    decreases steps.len(),
{
    if steps.len() > 0 {
        law_found_specs_stay_found(db, name, parsed, steps.drop_last(), parsed_again);
    }
}

/// Whether every file directly in the directory that is named like a spec is a
/// text that `parse` turns into a spec, found at a path of its own.
pub open spec fn is_sound_bundle(db: DbView, parse: spec_fn(Seq<char>) -> Option<CommandView>) -> bool {
    &&& db.paths.no_duplicates()
    &&& forall|i: int|
        0 <= i < db.paths.len() ==> !(#[trigger] db.paths[i]).contains('/') && db.entries.contains_key(db.paths[i])
    &&& forall|i: int|
        0 <= i < db.paths.len() && command_of(#[trigger] db.paths[i]) is Some ==> text_at(db.entries, db.paths[i])
            is Some && parse(text_at(db.entries, db.paths[i])->0) is Some
}

/// Of a sound bundle no name is listed twice, and every listed name is found on
/// every lookup, each time with the spec that the first lookup found.
pub proof fn law_sound_bundle_is_found(
    db: DbView,
    parse: spec_fn(Seq<char>) -> Option<CommandView>,
    name: Seq<char>,
    steps: Seq<(Seq<char>, Option<CommandView>)>,
    parsed_again: Option<CommandView>,
)
    requires
        is_sound_bundle(db, parse),
        commands_of(db.paths).contains(name),
    ensures
        commands_of(db.paths).no_duplicates(),
        bundled_text(db, name) is Some,
        ({
            let first = looked_up(db, name, parse(bundled_text(db, name)->0));
            &&& first.1 is Some
            &&& looked_up(after_lookups(first.0, steps), name, parsed_again).1 == first.1
        }),
{
    law_listed_names_are_distinct(db.paths);
    law_listed_names(db.paths, name);
    let i = choose|i: int| 0 <= i < db.paths.len() && command_of(#[trigger] db.paths[i]) == Some(name);
    lemma_flat_path(db.paths[i], name);
    law_found_specs_stay_found(db, name, parse(bundled_text(db, name)->0), steps, parsed_again);
}

proof fn lemma_part_start_behind_slash(path: Seq<char>, cut: int, end: int)
    requires
        0 <= cut <= end <= path.len(),
        cut > 0 ==> path[cut - 1] == '/',
        forall|k: int| cut <= k < end ==> path[k] != '/',
    ensures
        part_start(path, end) == cut,
    decreases end - cut,
{
    if cut < end {
        lemma_part_start_behind_slash(path, cut, end - 1);
    }
}

proof fn lemma_part_start(path: Seq<char>, end: int)
    requires
        0 <= end <= path.len(),
    ensures
        0 <= part_start(path, end) <= end,
        part_start(path, end) > 0 ==> path[part_start(path, end) - 1] == '/',
        forall|k: int| part_start(path, end) <= k < end ==> path[k] != '/',
    decreases end,
{
    if end > 0 && path[end - 1] != '/' {
        lemma_part_start(path, end - 1);
    }
}

/// The command of a spec file is the file's name without `.hintkitspec.json`, in
/// whatever directory it stands.
pub proof fn law_spec_files_are_named_for_their_command(dir: Seq<char>, name: Seq<char>)
    requires
        dir.len() > 0 ==> dir.last() == '/',
        !name.contains('/'),
    ensures
        command_of(dir + (name + ".hintkitspec.json"@)) == Some(name),
        spec_file(name) == name + ".hintkitspec.json"@,
{
    let suffix = ".hintkitspec.json"@;
    let file = name + suffix;
    let path = dir + file;
    reveal_strlit(".hintkitspec.json");
    let n = path.len() as int;
    assert(path[n - 1] == suffix[16]);
    assert(path[n - 1] == 'n');
    assert forall|k: int| dir.len() <= k < n implies path[k] != '/' by {
        if k < dir.len() + name.len() {
            assert(path[k] == name[k - dir.len()]);
            assert(name.contains(name[k - dir.len()]));
        } else {
            assert(path[k] == suffix[k - dir.len() - name.len()]);
        }
    }
    if dir.len() > 0 {
        assert(path[dir.len() - 1] == dir.last());
    }
    lemma_part_start_behind_slash(path, dir.len() as int, n);
    assert(path.skip(dir.len() as int) =~= file);
    assert(file.len() >= 17);
    assert(seq!['.'].len() == 1 && seq!['.', '.'].len() == 2);
    assert(file.skip(file.len() - suffix.len()) =~= suffix);
    assert(file.take(file.len() - suffix.len()) =~= name);
}

/// Nothing else is a spec file: a path that holds a command's spec ends, but for
/// slashes and `/.` at its end, with a component that is the command's name and
/// `.hintkitspec.json`.
pub proof fn law_only_such_files_hold_a_spec(path: Seq<char>, name: Seq<char>)
    requires
        command_of(path) == Some(name),
        path.last() != '/',
        !(path.len() >= 2 && path.last() == '.' && path[path.len() - 2] == '/'),
    ensures
        !name.contains('/'),
        ({
            let file = name + ".hintkitspec.json"@;
            let cut = path.len() - file.len();
            &&& 0 <= cut
            &&& path == path.take(cut) + file
            &&& cut > 0 ==> path[cut - 1] == '/'
        }),
{
    let suffix = ".hintkitspec.json"@;
    let n = path.len() as int;
    lemma_part_start(path, n);
    let cut = part_start(path, n);
    let file = path.skip(cut);
    assert(file_name(path) == Some(file));
    assert(file =~= name + suffix) by {
        let at = file.len() - suffix.len();
        assert(file =~= file.take(at) + file.skip(at));
    }
    assert(path =~= path.take(cut) + file);
    if name.contains('/') {
        let k = choose|k: int| 0 <= k < name.len() && name[k] == '/';
        assert(file[k] == name[k]);
        assert(path[cut + k] == file[k]);
    }
}

/// Slashes, and components `.`, at the end of a path make no difference.
pub proof fn law_trailing_slashes_do_not_matter(path: Seq<char>)
    ensures
        command_of(path.push('/')) == command_of(path),
        path.len() > 0 ==> command_of(path.push('/').push('.')) == command_of(path),
{
    assert(path.push('/').drop_last() =~= path);
    assert(path.push('/').push('.').drop_last() =~= path.push('/'));
    assert(file_name(path.push('/')) == file_name(path));
    let dotted = path.push('/').push('.');
    assert(dotted[dotted.len() - 2] == '/');
    assert(file_name(dotted) == file_name(path.push('/')));
}

/// The listing goes file by file: what the first files bring comes before what
/// the others bring.
pub proof fn law_names_are_listed_file_by_file(a: Seq<Seq<char>>, b: Seq<Seq<char>>)
    ensures
        commands_of(a + b) == commands_of(a) + commands_of(b),
    decreases b.len(),
{
    if b.len() == 0 {
        assert(a + b =~= a);
        assert(commands_of(a) + commands_of(b) =~= commands_of(a));
    } else {
        law_names_are_listed_file_by_file(a, b.drop_last());
        assert((a + b).drop_last() =~= a + b.drop_last());
        assert((a + b).last() == b.last());
        assert(commands_of(a + b) =~= commands_of(a) + commands_of(b));
    }
}

/// The first lookup of a bundled command gives what its file's text parses to,
/// and keeps it; a file that holds no text, or none at all, gives nothing.
pub proof fn law_first_lookup_parses_the_file(
    db: DbView,
    name: Seq<char>,
    text: Seq<char>,
    parsed: Option<CommandView>,
)
    requires
        !db.cache.contains_key(name),
    ensures
        ({
            let file = name + ".hintkitspec.json"@;
            &&& db.entries.contains_key(file) && db.entries[file] == Some(vstd::utf8::encode_utf8(text)) ==> {
                &&& to_parse(db, name) == Some(text)
                &&& looked_up(db, name, parsed).1 == parsed
                &&& looked_up(db, name, parsed).0.entries == db.entries
                &&& looked_up(db, name, parsed).0.paths == db.paths
                &&& parsed matches Some(spec) ==> looked_up(db, name, parsed).0.cache == db.cache.insert(name, spec)
                &&& parsed is None ==> looked_up(db, name, parsed).0.cache == db.cache
            }
            &&& !db.entries.contains_key(file) || db.entries[file] is None || !vstd::utf8::valid_utf8(
                db.entries[file]->0,
            ) ==> to_parse(db, name) is None && looked_up(db, name, parsed) == (db, None::<CommandView>)
        }),
{
    text::law_decoding_inverts_encoding(vstd::utf8::encode_utf8(text), text);
}

/// A command that is in the cache is not parsed again.
pub proof fn law_cached_spec_is_given(db: DbView, name: Seq<char>, parsed: Option<CommandView>)
    requires
        db.cache.contains_key(name),
    ensures
        to_parse(db, name) is None,
        looked_up(db, name, parsed) == (db, Some(db.cache[name])),
{
}

} // verus!
