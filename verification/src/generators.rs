//! Native dynamic-suggestion generators.
//!
//! Each generator turns what was read from the working directory into candidate
//! strings. Reading it (a directory listing, a subprocess with a time limit, a
//! file) is the caller's business; a read that failed is `None` here, and brings
//! no candidates rather than an error.

use vstd::prelude::*;
use vstd::string::*;

use crate::schema;
use crate::schema::GeneratorKind;
use crate::sorting;
use crate::text;

verus! {

broadcast use vstd::seq_lib::group_seq_properties;

/// One entry of a directory listing.
#[derive(Debug)]
pub struct DirEntry {
    /// The entry's name, or `None` if it is not text.
    pub name: Option<String>,
    /// Whether the entry is known to be a directory.
    pub is_dir: bool,
}

/// What was read from the working directory for the generators to work on.
#[derive(Debug)]
pub struct WorkingDir {
    /// The directory's entries.
    pub entries: Option<Vec<DirEntry>>,
    /// What `git branch` printed, one short name per line.
    pub branch_output: Option<String>,
    /// The text of `package.json`.
    pub package_json: Option<String>,
}

/// What a [`DirEntry`] stands for.
pub struct EntryView {
    pub name: Option<Seq<char>>,
    pub is_dir: bool,
}

/// What a [`WorkingDir`] stands for.
pub struct WorkingDirView {
    pub entries: Option<Seq<EntryView>>,
    pub branch_output: Option<Seq<char>>,
    pub package_json: Option<Seq<char>>,
}

impl View for DirEntry {
    type V = EntryView;

    open spec fn view(&self) -> EntryView {
        EntryView { name: schema::opt_text(self.name), is_dir: self.is_dir }
    }
}

/// What an optional listing stands for.
pub open spec fn listing(entries: Option<Vec<DirEntry>>) -> Option<Seq<EntryView>> {
    match entries {
        Some(list) => Some(list@.map_values(|e: DirEntry| e@)),
        None => None,
    }
}

impl View for WorkingDir {
    type V = WorkingDirView;

    open spec fn view(&self) -> WorkingDirView {
        WorkingDirView {
            entries: listing(self.entries),
            branch_output: schema::opt_text(self.branch_output),
            package_json: schema::opt_text(self.package_json),
        }
    }
}

/// Whether a listing shows the entry: it has a name, and it is a directory if
/// only those are wanted.
pub open spec fn is_listed(e: EntryView, dirs_only: bool) -> bool {
    e.name is Some && (dirs_only ==> e.is_dir)
}

/// The names that a listing shows, in its order.
pub open spec fn listed_names(list: Seq<EntryView>, dirs_only: bool) -> Seq<Seq<char>> {
    list.filter(|e: EntryView| is_listed(e, dirs_only)).map_values(|e: EntryView| e.name->0)
}

/// The sorted names of an optional listing.
pub open spec fn directory_names(entries: Option<Seq<EntryView>>, dirs_only: bool) -> Seq<Seq<char>> {
    match entries {
        Some(list) => sorting::sorted_texts(listed_names(list, dirs_only)),
        None => seq![],
    }
}

/// Unicode white space.
pub open spec fn is_white_space(c: char) -> bool {
    ||| '\u{9}' <= c <= '\u{d}'
    ||| c == '\u{20}'
    ||| c == '\u{85}'
    ||| c == '\u{a0}'
    ||| c == '\u{1680}'
    ||| '\u{2000}' <= c <= '\u{200a}'
    ||| c == '\u{2028}'
    ||| c == '\u{2029}'
    ||| c == '\u{202f}'
    ||| c == '\u{205f}'
    ||| c == '\u{3000}'
}

/// The index behind which only white space follows, up to `end`.
pub open spec fn trimmed_end(s: Seq<char>, end: int) -> int
    decreases end,
{
    if 0 < end <= s.len() && is_white_space(s[end - 1]) {
        trimmed_end(s, end - 1)
    } else {
        end
    }
}

/// The index before which only white space stands, from `start` on.
pub open spec fn trimmed_start(s: Seq<char>, start: int) -> int
    decreases s.len() - start,
{
    if 0 <= start < s.len() && is_white_space(s[start]) {
        trimmed_start(s, start + 1)
    } else {
        start
    }
}

/// `s` without the white space around it.
pub open spec fn trimmed(s: Seq<char>) -> Seq<char> {
    if trimmed_start(s, 0) >= s.len() {
        seq![]
    } else {
        s.subrange(trimmed_start(s, 0), trimmed_end(s, s.len() as int))
    }
}

/// The lines of `s` from `start` on, without their line feeds.
pub open spec fn lines(s: Seq<char>, start: int) -> Seq<Seq<char>>
    decreases s.len() - start,
    via lines_decreases
{
    if 0 <= start <= s.len() {
        match text::first_index(s, '\n', start) {
            Some(end) => seq![s.subrange(start, end)] + lines(s, end + 1),
            None => seq![s.subrange(start, s.len() as int)],
        }
    } else {
        seq![]
    }
}

#[via_fn]
proof fn lines_decreases(s: Seq<char>, start: int) {
    if 0 <= start <= s.len() {
        text::lemma_first_index(s, '\n', start);
    }
}

/// The lines without surrounding white space, blank ones left out.
pub open spec fn kept_lines(list: Seq<Seq<char>>) -> Seq<Seq<char>>
    decreases list.len(),
{
    if list.len() == 0 {
        seq![]
    } else {
        let rest = kept_lines(list.drop_first());
        if trimmed(list[0]).len() == 0 {
            rest
        } else {
            seq![trimmed(list[0])] + rest
        }
    }
}

/// The branch names that an optional `git branch` output lists.
pub open spec fn branch_names(output: Option<Seq<char>>) -> Seq<Seq<char>> {
    match output {
        Some(s) => kept_lines(lines(s, 0)),
        None => seq![],
    }
}

/// The keys of the object that is the value of `member` in the object that the
/// JSON text `text` holds; nothing if the text is not JSON, or if it or the
/// member's value is no object.
pub uninterp spec fn json_member_keys(text: Seq<char>, member: Seq<char>) -> Option<Seq<Seq<char>>>;

/// Calls `serde_json::from_str` for a `serde_json::Value`, then `Value::get`,
/// `Value::as_object` and `Map::keys` on what it returned. The claim: the keys
/// depend on the text and the member's name alone, and no key comes twice.
/// What JSON is stays unsaid.
#[verifier::external_body]
fn member_keys(text: &str, member: &str) -> (r: Option<Vec<String>>)
    ensures
        r is None ==> json_member_keys(text@, member@) is None,
        r matches Some(keys) ==> json_member_keys(text@, member@) == Some(schema::texts(keys@)),
        r matches Some(keys) ==> schema::texts(keys@).no_duplicates(),
{
    let value: serde_json::Value = serde_json::from_str(text).ok()?;
    let object = value.get(member)?.as_object()?;
    Some(object.keys().cloned().collect())
}

/// The sorted names of an optional list of script names.
pub open spec fn sorted_names(keys: Option<Seq<Seq<char>>>) -> Seq<Seq<char>> {
    match keys {
        Some(names) => sorting::sorted_texts(names),
        None => seq![],
    }
}

/// The scripts that an optional `package.json` defines.
pub open spec fn script_names(package_json: Option<Seq<char>>) -> Seq<Seq<char>> {
    match package_json {
        Some(t) => sorted_names(json_member_keys(t, "scripts"@)),
        None => seq![],
    }
}

/// The candidates of a generator.
pub open spec fn resolved(kind: GeneratorKind, cwd: WorkingDirView) -> Seq<Seq<char>> {
    match kind {
        GeneratorKind::FilePath => directory_names(cwd.entries, false),
        GeneratorKind::DirPath => directory_names(cwd.entries, true),
        GeneratorKind::GitBranches => branch_names(cwd.branch_output),
        GeneratorKind::PackageJsonScripts => script_names(cwd.package_json),
    }
}

/// Dispatch a [`GeneratorKind`] to its native implementation in the
/// given working directory. Failures (no git repo, missing package.json, an
/// unreadable directory) surface as an empty list rather than an error.
pub fn resolve(kind: GeneratorKind, cwd: &WorkingDir) -> (r: Vec<String>)
    ensures
        schema::texts(r@) == resolved(kind, cwd@),
{
    match kind {
        GeneratorKind::FilePath => file_path(&cwd.entries),
        GeneratorKind::DirPath => dir_path(&cwd.entries),
        GeneratorKind::GitBranches => git_branches(&cwd.branch_output),
        GeneratorKind::PackageJsonScripts => package_json_scripts(&cwd.package_json),
    }
}

/// The names of everything in the directory.
pub fn file_path(entries: &Option<Vec<DirEntry>>) -> (r: Vec<String>)
    ensures
        schema::texts(r@) == directory_names(listing(*entries), false),
{
    list_dir(entries, false)
}

/// The names of the directories in the directory.
pub fn dir_path(entries: &Option<Vec<DirEntry>>) -> (r: Vec<String>)
    ensures
        schema::texts(r@) == directory_names(listing(*entries), true),
{
    list_dir(entries, true)
}

fn list_dir(entries: &Option<Vec<DirEntry>>, dirs_only: bool) -> (r: Vec<String>)
    ensures
        schema::texts(r@) == directory_names(listing(*entries), dirs_only),
{
    match entries {
        None => {
            let r: Vec<String> = Vec::new();
            assert(schema::texts(r@) =~= seq![]);
            r
        },
        Some(list) => {
            let ghost views = list@.map_values(|e: DirEntry| e@);
            let ghost p = |e: EntryView| is_listed(e, dirs_only);
            let ghost f = |e: EntryView| e.name->0;
            let mut names: Vec<String> = Vec::new();
            let mut i: usize = 0;
            proof {
                reveal(Seq::filter);
                assert(schema::texts(names@) =~= views.take(0).filter(p).map_values(f));
            }
            while i < list.len()
                invariant
                    i <= list@.len(),
                    views == list@.map_values(|e: DirEntry| e@),
                    p == (|e: EntryView| is_listed(e, dirs_only)),
                    f == (|e: EntryView| e.name->0),
                    schema::texts(names@) == views.take(i as int).filter(p).map_values(f),
                decreases list@.len() - i,
            {
                let entry = &list[i];
                let ghost done = views.take(i as int).filter(p);
                let ghost before = names@;
                proof {
                    reveal(Seq::filter);
                    assert(views[i as int] == entry@);
                    assert(views.take(i + 1).drop_last() =~= views.take(i as int));
                    assert(views.take(i + 1).last() == entry@);
                }
                if !dirs_only || entry.is_dir {
                    if let Some(name) = &entry.name {
                        names.push(name.clone());
                        assert(schema::texts(names@) =~= schema::texts(before).push(name@));
                        assert(done.push(entry@).map_values(f) =~= done.map_values(f).push(name@));
                    }
                }
                i += 1;
            }
            assert(views.take(views.len() as int) =~= views);
            sorting::sort_texts(&names)
        },
    }
}

fn is_white_space_char(c: char) -> (r: bool)
    ensures
        r == is_white_space(c),
{
    ('\u{9}' <= c && c <= '\u{d}') || c == '\u{20}' || c == '\u{85}' || c == '\u{a0}' || c == '\u{1680}' || (
    '\u{2000}' <= c && c <= '\u{200a}') || c == '\u{2028}' || c == '\u{2029}' || c == '\u{202f}' || c == '\u{205f}'
        || c == '\u{3000}'
}

/// The branch names in what `git branch` printed.
pub fn git_branches(output: &Option<String>) -> (r: Vec<String>)
    ensures
        schema::texts(r@) == branch_names(schema::opt_text(*output)),
{
    let mut r: Vec<String> = Vec::new();
    match output {
        None => {
            assert(schema::texts(r@) =~= seq![]);
        },
        Some(raw) => {
            let s = raw.as_str();
            let chars = text::chars_of(s);
            let len = chars.len();
            let mut start: usize = 0;
            let mut more = true;
            let ghost all = kept_lines(lines(s@, 0));
            assert(schema::texts(r@) + all =~= all);
            while more
                invariant
                    chars@ == s@,
                    len == s@.len(),
                    more ==> start <= len,
                    all == schema::texts(r@) + if more {
                        kept_lines(lines(s@, start as int))
                    } else {
                        seq![]
                    },
                decreases (if more {
                    len - start + 1
                } else {
                    0
                }),
            {
                let ghost before = r@;
                let ghost rest = lines(s@, start as int);
                let mut end: usize = start;
                while end < len && chars[end] != '\n'
                    invariant
                        chars@ == s@,
                        len == s@.len(),
                        start <= end <= len,
                        text::first_index(s@, '\n', start as int) == text::first_index(s@, '\n', end as int),
                    decreases len - end,
                {
                    end += 1;
                }
                let ghost line = s@.subrange(start as int, end as int);
                more = end < len;
                let ghost tail = if more {
                    lines(s@, end + 1)
                } else {
                    seq![]
                };
                proof {
                    reveal_with_fuel(kept_lines, 2);
                    assert(rest[0] == line);
                    assert(rest.drop_first() =~= tail);
                }
                let mut from: usize = start;
                while from < end && is_white_space_char(chars[from])
                    invariant
                        chars@ == s@,
                        len == s@.len(),
                        start <= from <= end <= len,
                        line == s@.subrange(start as int, end as int),
                        trimmed_start(line, 0) == trimmed_start(line, from - start),
                    decreases end - from,
                {
                    assert(line[from - start] == s@[from as int]);
                    from += 1;
                }
                if from < end {
                    assert(line[from - start] == s@[from as int]);
                    let mut to: usize = end;
                    while to > from && is_white_space_char(chars[to - 1])
                        invariant
                            chars@ == s@,
                            len == s@.len(),
                            start <= from < end <= len,
                            from <= to <= end,
                            line == s@.subrange(start as int, end as int),
                            !is_white_space(s@[from as int]),
                            trimmed_end(line, line.len() as int) == trimmed_end(line, to - start),
                            to > from,
                        decreases to - from,
                    {
                        assert(line[to - 1 - start] == s@[to - 1]);
                        to -= 1;
                    }
                    assert(line[to - 1 - start] == s@[to - 1]);
                    let name = s.substring_char(from, to);
                    assert(name@ =~= line.subrange(from - start, to - start));
                    assert(name@ == trimmed(line));
                    r.push(name.to_owned());
                    assert(schema::texts(r@) =~= schema::texts(before).push(name@));
                }
                if more {
                    start = end + 1;
                }
                assert(schema::texts(r@) + kept_lines(tail) =~= schema::texts(before) + kept_lines(rest));
            }
        },
    }
    r
}

/// The sorted names of an optional list of script names.
pub fn sort_script_names(keys: &Option<Vec<String>>) -> (r: Vec<String>)
    ensures
        schema::texts(r@) == sorted_names(
            match *keys {
                Some(list) => Some(schema::texts(list@)),
                None => None,
            },
        ),
{
    match keys {
        Some(list) => sorting::sort_texts(list),
        None => {
            let r: Vec<String> = Vec::new();
            assert(schema::texts(r@) =~= seq![]);
            r
        },
    }
}

/// The names of the scripts that `package.json` defines, each once.
pub fn package_json_scripts(package_json: &Option<String>) -> (r: Vec<String>)
    ensures
        schema::texts(r@) == script_names(schema::opt_text(*package_json)),
        schema::texts(r@).no_duplicates(),
{
    match package_json {
        Some(t) => {
            let keys = member_keys(t.as_str(), "scripts");
            proof {
                if keys is Some {
                    lemma_sorting_keeps_distinct(schema::texts(keys->0@));
                }
            }
            sort_script_names(&keys)
        },
        None => {
            let r: Vec<String> = Vec::new();
            assert(schema::texts(r@) =~= seq![]);
            r
        },
    }
}

proof fn lemma_sorting_keeps_distinct(s: Seq<Seq<char>>)
    requires
        s.no_duplicates(),
    ensures
        sorting::sorted_texts(s).no_duplicates(),
{
    sorting::law_sorted_texts(s);
    s.lemma_multiset_has_no_duplicates();
    sorting::sorted_texts(s).lemma_multiset_has_no_duplicates_conv();
}

/// A directory listing shows exactly the entries that have a name (and are
/// directories, if only those are wanted), in ascending order.
pub proof fn law_listing_is_complete_and_sorted(list: Seq<EntryView>, dirs_only: bool)
    ensures
        directory_names(Some(list), dirs_only).to_multiset() == listed_names(list, dirs_only).to_multiset(),
        forall|name: Seq<char>|
            #![trigger directory_names(Some(list), dirs_only).contains(name)]
            directory_names(Some(list), dirs_only).contains(name) <==> exists|i: int|
                0 <= i < list.len() && is_listed(#[trigger] list[i], dirs_only) && list[i].name == Some(name),
        forall|a: int, b: int|
            0 <= a < b < directory_names(Some(list), dirs_only).len() ==> sorting::text_le(
                #[trigger] directory_names(Some(list), dirs_only)[a],
                #[trigger] directory_names(Some(list), dirs_only)[b],
            ),
{
    let p = |e: EntryView| is_listed(e, dirs_only);
    let f = |e: EntryView| e.name->0;
    let kept = list.filter(p);
    let names = listed_names(list, dirs_only);
    let shown = directory_names(Some(list), dirs_only);
    sorting::law_sorted_texts(names);
    shown.to_multiset_ensures();
    names.to_multiset_ensures();
    assert forall|name: Seq<char>| #[trigger] shown.contains(name) <==> exists|i: int|
        0 <= i < list.len() && is_listed(#[trigger] list[i], dirs_only) && list[i].name == Some(name) by {
        assert(shown.to_multiset().count(name) == names.to_multiset().count(name));
        assert(shown.contains(name) <==> shown.to_multiset().count(name) > 0);
        assert(names.contains(name) <==> names.to_multiset().count(name) > 0);
        if names.contains(name) {
            let k = choose|k: int| 0 <= k < names.len() && names[k] == name;
            list.lemma_filter_pred(p, k);
            list.lemma_filter_contains_rev(p, kept[k]);
            let i = choose|i: int| 0 <= i < list.len() && list[i] == kept[k];
            assert(is_listed(list[i], dirs_only) && list[i].name == Some(name));
        }
        if exists|i: int|
            0 <= i < list.len() && is_listed(#[trigger] list[i], dirs_only) && list[i].name == Some(name) {
            let i = choose|i: int|
                0 <= i < list.len() && is_listed(#[trigger] list[i], dirs_only) && list[i].name == Some(name);
            list.lemma_filter_contains(p, i);
            let k = choose|k: int| 0 <= k < kept.len() && kept[k] == list[i];
            assert(names[k] == name);
        }
    }
}

/// The directory generator offers what the file generator offers, in the same
/// order, with only the entries that are no directories left out.
pub proof fn law_directories_are_files(cwd: WorkingDirView)
    ensures
        sorting::is_subsequence(resolved(GeneratorKind::DirPath, cwd), resolved(GeneratorKind::FilePath, cwd)),
        cwd.entries matches Some(list) ==> {
            let files = sorting::sorted_by_key(
                list.filter(|e: EntryView| is_listed(e, false)),
                |e: EntryView| sorting::plain_key(e.name->0),
            );
            &&& resolved(GeneratorKind::FilePath, cwd) == files.map_values(|e: EntryView| e.name->0)
            &&& resolved(GeneratorKind::DirPath, cwd) == files.filter(|e: EntryView| e.is_dir).map_values(
                |e: EntryView| e.name->0,
            )
        },
{
    if let Some(list) = cwd.entries {
        let f = |e: EntryView| is_listed(e, false);
        let g = |e: EntryView| is_listed(e, true);
        let is_dir = |e: EntryView| e.is_dir;
        let key = |e: EntryView| sorting::plain_key(e.name->0);
        let name = |e: EntryView| e.name->0;
        let listed = list.filter(f);
        let dirs = list.filter(g);
        lemma_filter_twice(list);
        lemma_sorted_names(listed);
        lemma_sorted_names(dirs);
        sorting::law_sorting_keeps_parts(listed, is_dir, key);
        sorting::law_filter_is_subsequence(sorting::sorted_by_key(listed, key), is_dir, name);
    } else {
        let none: Seq<Seq<char>> = seq![];
        let at: Seq<int> = seq![];
        assert(sorting::picks(none, none, at));
    }
}

proof fn lemma_filter_twice(list: Seq<EntryView>)
    ensures
        list.filter(|e: EntryView| is_listed(e, true)) == list.filter(|e: EntryView| is_listed(e, false)).filter(
            |e: EntryView| e.is_dir,
        ),
    decreases list.len(),
{
    reveal(Seq::filter);
    let f = |e: EntryView| is_listed(e, false);
    if list.len() > 0 {
        lemma_filter_twice(list.drop_last());
        let kept = list.drop_last().filter(f);
        assert(kept.push(list.last()).drop_last() =~= kept);
    }
}

/// Sorting the names of entries is sorting the entries by name.
proof fn lemma_sorted_names(list: Seq<EntryView>)
    ensures
        sorting::sorted_texts(list.map_values(|e: EntryView| e.name->0)) == sorting::sorted_by_key(
            list,
            |e: EntryView| sorting::plain_key(e.name->0),
        ).map_values(|e: EntryView| e.name->0),
{
    let key = |e: EntryView| sorting::plain_key(e.name->0);
    let name = |e: EntryView| e.name->0;
    let names = list.map_values(name);
    assert(sorting::plain_keys(names) =~= list.map_values(key));
    sorting::law_sort_is_stable(list.map_values(key));
    let order = sorting::sorted_positions(list.map_values(key));
    assert forall|i: int| 0 <= i < order.len() implies sorting::arranged(names, order)[i] == sorting::arranged(
        list,
        order,
    ).map_values(name)[i] by {
        assert(0 <= order[i] < list.len());
    }
    assert(sorting::arranged(names, order) =~= sorting::arranged(list, order).map_values(name));
}

/// A failed read brings no candidates.
pub proof fn law_failures_bring_nothing(kind: GeneratorKind, cwd: WorkingDirView)
    requires
        match kind {
            GeneratorKind::FilePath | GeneratorKind::DirPath => cwd.entries is None,
            GeneratorKind::GitBranches => cwd.branch_output is None,
            GeneratorKind::PackageJsonScripts => cwd.package_json is None || json_member_keys(
                cwd.package_json->0,
                "scripts"@,
            ) is None,
        },
    ensures
        resolved(kind, cwd) == Seq::<Seq<char>>::empty(),
{
}

/// The script names come in ascending order, each that `package.json` defines
/// and no other.
pub proof fn law_scripts_are_sorted(text: Seq<char>)
    requires
        json_member_keys(text, "scripts"@) is Some,
    ensures
        script_names(Some(text)).to_multiset() == json_member_keys(text, "scripts"@)->0.to_multiset(),
        forall|a: int, b: int|
            0 <= a < b < script_names(Some(text)).len() ==> sorting::text_le(
                #[trigger] script_names(Some(text))[a],
                #[trigger] script_names(Some(text))[b],
            ),
{
    sorting::law_sorted_texts(json_member_keys(text, "scripts"@)->0);
}

/// A branch name is never blank, has no white space around it and stands on
/// one line.
pub proof fn law_branch_names_are_trimmed(output: Seq<char>, i: int)
    requires
        0 <= i < branch_names(Some(output)).len(),
    ensures
        branch_names(Some(output))[i].len() > 0,
        !is_white_space(branch_names(Some(output))[i].first()),
        !is_white_space(branch_names(Some(output))[i].last()),
        !branch_names(Some(output))[i].contains('\n'),
{
    lemma_lines_hold_no_line_feed(output, 0);
    lemma_kept_lines(lines(output, 0), i);
}

proof fn lemma_lines_hold_no_line_feed(s: Seq<char>, start: int)
    requires
        0 <= start,
    ensures
        forall|k: int| 0 <= k < lines(s, start).len() ==> !(#[trigger] lines(s, start)[k]).contains('\n'),
    decreases s.len() - start,
{
    if start <= s.len() {
        text::lemma_first_index(s, '\n', start);
        if let Some(end) = text::first_index(s, '\n', start) {
            lemma_lines_hold_no_line_feed(s, end + 1);
            assert forall|k: int| 0 <= k < lines(s, start).len() implies !(#[trigger] lines(s, start)[k]).contains(
                '\n',
            ) by {
                if k > 0 {
                    assert(lines(s, start)[k] == lines(s, end + 1)[k - 1]);
                }
            }
        }
    }
}

proof fn lemma_kept_lines(list: Seq<Seq<char>>, i: int)
    requires
        forall|k: int| 0 <= k < list.len() ==> !(#[trigger] list[k]).contains('\n'),
        0 <= i < kept_lines(list).len(),
    ensures
        kept_lines(list)[i].len() > 0,
        !is_white_space(kept_lines(list)[i].first()),
        !is_white_space(kept_lines(list)[i].last()),
        !kept_lines(list)[i].contains('\n'),
    decreases list.len(),
{
    let line = list[0];
    let rest = list.drop_first();
    assert forall|k: int| 0 <= k < rest.len() implies !(#[trigger] rest[k]).contains('\n') by {
        assert(rest[k] == list[k + 1]);
    }
    if trimmed(line).len() == 0 {
        lemma_kept_lines(rest, i);
    } else if i > 0 {
        lemma_kept_lines(rest, i - 1);
        assert(kept_lines(list)[i] == kept_lines(rest)[i - 1]);
    } else {
        assert(kept_lines(list)[0] == trimmed(line));
        lemma_trimmed_start(line, 0);
        lemma_trimmed_end(line, line.len() as int);
        let t = trimmed(line);
        assert(!is_white_space(line[trimmed_start(line, 0)]));
        assert forall|k: int| 0 <= k < t.len() implies t[k] != '\n' by {
            assert(t[k] == line[trimmed_start(line, 0) + k]);
            assert(line.contains(line[trimmed_start(line, 0) + k]));
        }
    }
}

proof fn lemma_trimmed_start(s: Seq<char>, start: int)
    requires
        0 <= start <= s.len(),
    ensures
        start <= trimmed_start(s, start) <= s.len(),
        trimmed_start(s, start) < s.len() ==> !is_white_space(s[trimmed_start(s, start)]),
    decreases s.len() - start,
{
    if start < s.len() && is_white_space(s[start]) {
        lemma_trimmed_start(s, start + 1);
    }
}

proof fn lemma_trimmed_end(s: Seq<char>, end: int)
    requires
        0 <= end <= s.len(),
    ensures
        0 <= trimmed_end(s, end) <= end,
        trimmed_end(s, end) > 0 ==> !is_white_space(s[trimmed_end(s, end) - 1]),
        forall|k: int| trimmed_end(s, end) <= k < end ==> is_white_space(#[trigger] s[k]),
    decreases end,
{
    if end > 0 && is_white_space(s[end - 1]) {
        lemma_trimmed_end(s, end - 1);
    }
}

/// The file generator offers a name exactly if an entry has it, and the directory
/// generator exactly if a directory has it.
pub proof fn law_listings_offer_the_entries(cwd: WorkingDirView, list: Seq<EntryView>, name: Seq<char>)
    requires
        cwd.entries == Some(list),
    ensures
        resolved(GeneratorKind::FilePath, cwd).contains(name) <==> exists|i: int|
            0 <= i < list.len() && (#[trigger] list[i]).name == Some(name),
        resolved(GeneratorKind::DirPath, cwd).contains(name) <==> exists|i: int|
            0 <= i < list.len() && (#[trigger] list[i]).name == Some(name) && list[i].is_dir,
{
    law_listing_is_complete_and_sorted(list, false);
    law_listing_is_complete_and_sorted(list, true);
    assert(directory_names(Some(list), false).contains(name) <==> resolved(GeneratorKind::FilePath, cwd).contains(
        name,
    ));
    assert(directory_names(Some(list), true).contains(name) <==> resolved(GeneratorKind::DirPath, cwd).contains(name));
    assert forall|i: int| 0 <= i < list.len() && (#[trigger] list[i]).name == Some(name) implies is_listed(
        list[i],
        false,
    ) by {}
    assert forall|i: int|
        0 <= i < list.len() && (#[trigger] list[i]).name == Some(name) && list[i].is_dir implies is_listed(
        list[i],
        true,
    ) by {}
}

/// How many of the first `n` entries have the name, of directories only if so
/// wanted.
pub open spec fn times_named(list: Seq<EntryView>, name: Seq<char>, dirs_only: bool, n: int) -> nat
    decreases n,
{
    if n <= 0 {
        0
    } else {
        times_named(list, name, dirs_only, n - 1) + if list[n - 1].name == Some(name) && (dirs_only
            ==> list[n - 1].is_dir) {
            1nat
        } else {
            0nat
        }
    }
}

/// A listing offers every name as often as entries have it, in ascending order.
pub proof fn law_listings_are_exact(cwd: WorkingDirView, list: Seq<EntryView>, name: Seq<char>)
    requires
        cwd.entries == Some(list),
    ensures
        resolved(GeneratorKind::FilePath, cwd).to_multiset().count(name) == times_named(
            list,
            name,
            false,
            list.len() as int,
        ),
        resolved(GeneratorKind::DirPath, cwd).to_multiset().count(name) == times_named(
            list,
            name,
            true,
            list.len() as int,
        ),
        forall|a: int, b: int|
            0 <= a < b < resolved(GeneratorKind::FilePath, cwd).len() ==> sorting::text_le(
                #[trigger] resolved(GeneratorKind::FilePath, cwd)[a],
                #[trigger] resolved(GeneratorKind::FilePath, cwd)[b],
            ),
        forall|a: int, b: int|
            0 <= a < b < resolved(GeneratorKind::DirPath, cwd).len() ==> sorting::text_le(
                #[trigger] resolved(GeneratorKind::DirPath, cwd)[a],
                #[trigger] resolved(GeneratorKind::DirPath, cwd)[b],
            ),
{
    law_listing_is_complete_and_sorted(list, false);
    law_listing_is_complete_and_sorted(list, true);
    lemma_times_named(list, name, false, list.len() as int);
    lemma_times_named(list, name, true, list.len() as int);
    assert(list.take(list.len() as int) =~= list);
}

proof fn lemma_times_named(list: Seq<EntryView>, name: Seq<char>, dirs_only: bool, n: int)
    requires
        0 <= n <= list.len(),
    ensures
        listed_names(list.take(n), dirs_only).to_multiset().count(name) == times_named(list, name, dirs_only, n),
    decreases n,
{
    reveal(Seq::filter);
    let part = listed_names(list.take(n), dirs_only);
    part.to_multiset_ensures();
    if n > 0 {
        lemma_times_named(list, name, dirs_only, n - 1);
        let less = listed_names(list.take(n - 1), dirs_only);
        less.to_multiset_ensures();
        let e = list[n - 1];
        assert(list.take(n).drop_last() =~= list.take(n - 1));
        assert(list.take(n).last() == e);
        if is_listed(e, dirs_only) {
            assert(part =~= less.push(e.name->0));
            assert(less.push(e.name->0).to_multiset() =~= less.to_multiset().insert(e.name->0));
        } else {
            assert(part =~= less);
        }
    } else {
        assert(part =~= seq![]);
    }
}

proof fn lemma_first_index_in_first<A>(a: Seq<A>, b: Seq<A>, x: A, i: int)
    requires
        0 <= i <= a.len(),
        !a.contains(x),
    ensures
        text::first_index(a + (seq![x] + b), x, i) == Some(a.len() as int),
        text::first_index(a, x, i) is None,
    decreases a.len() - i,
{
    let s = a + (seq![x] + b);
    if i < a.len() {
        assert(a.contains(a[i]));
        assert(s[i] == a[i]);
        lemma_first_index_in_first(a, b, x, i + 1);
    } else {
        assert(s[i] == x);
    }
}

proof fn lemma_first_index_shifted<A>(s: Seq<A>, d: int, x: A, i: int)
    requires
        0 <= d <= s.len(),
        0 <= i,
    ensures
        text::first_index(s, x, d + i) == match text::first_index(s.skip(d), x, i) {
            Some(k) => Some(d + k),
            None => None::<int>,
        },
    decreases s.len() - d - i,
{
    if d + i < s.len() {
        assert(s.skip(d)[i] == s[d + i]);
        if s[d + i] != x {
            lemma_first_index_shifted(s, d, x, i + 1);
        }
    }
}

proof fn lemma_lines_shifted(s: Seq<char>, d: int, i: int)
    requires
        0 <= d <= s.len(),
        0 <= i,
    ensures
        lines(s, d + i) == lines(s.skip(d), i),
    decreases s.len() - d - i,
{
    if d + i <= s.len() {
        let t = s.skip(d);
        lemma_first_index_shifted(s, d, '\n', i);
        text::lemma_first_index(t, '\n', i);
        match text::first_index(t, '\n', i) {
            Some(end) => {
                lemma_lines_shifted(s, d, end + 1);
                assert(s.subrange(d + i, d + end) =~= t.subrange(i, end));
            },
            None => {
                assert(s.subrange(d + i, s.len() as int) =~= t.subrange(i, t.len() as int));
            },
        }
    }
}

/// Branch names are read line by line: what a first line brings comes before what
/// the lines behind it bring, and neither depends on the other.
pub proof fn law_branches_are_read_line_by_line(line: Seq<char>, rest: Seq<char>)
    requires
        !line.contains('\n'),
    ensures
        branch_names(Some(line + (seq!['\n'] + rest))) == branch_names(Some(line)) + branch_names(Some(rest)),
{
    let s = line + (seq!['\n'] + rest);
    let n = line.len() as int;
    lemma_first_index_in_first(line, rest, '\n', 0);
    assert(s.skip(n + 1) =~= rest);
    lemma_lines_shifted(s, n + 1, 0);
    assert(s.subrange(0, n) =~= line);
    assert(line.subrange(0, n) =~= line);
    assert(lines(s, 0) =~= seq![line] + lines(rest, 0));
    assert(lines(line, 0) =~= seq![line]);
    reveal_with_fuel(kept_lines, 2);
    assert((seq![line] + lines(rest, 0)).drop_first() =~= lines(rest, 0));
    assert(seq![line].drop_first() =~= seq![]);
    assert(kept_lines(lines(s, 0)) =~= kept_lines(seq![line]) + kept_lines(lines(rest, 0)));
}

proof fn lemma_trimmed_of_padded(left: Seq<char>, name: Seq<char>, right: Seq<char>)
    requires
        forall|i: int| 0 <= i < left.len() ==> is_white_space(#[trigger] left[i]),
        forall|i: int| 0 <= i < right.len() ==> is_white_space(#[trigger] right[i]),
        name.len() > 0 ==> !is_white_space(name.first()) && !is_white_space(name.last()),
    ensures
        trimmed(left + name + right) == name,
{
    let s = left + name + right;
    let n = s.len() as int;
    lemma_trimmed_start(s, 0);
    lemma_trimmed_end(s, n);
    lemma_only_white_before(s, 0);
    let a = trimmed_start(s, 0);
    let b = trimmed_end(s, n);
    assert forall|i: int| 0 <= i < left.len() implies is_white_space(#[trigger] s[i]) by {
        assert(s[i] == left[i]);
    }
    assert forall|i: int| left.len() + name.len() <= i < n implies is_white_space(#[trigger] s[i]) by {
        assert(s[i] == right[i - left.len() - name.len()]);
    }
    if name.len() > 0 {
        assert(s[left.len() as int] == name.first());
        assert(s[left.len() + name.len() - 1] == name.last());
        assert(a == left.len());
        assert(b == left.len() + name.len());
        assert(s.subrange(a, b) =~= name);
    } else {
        assert(a == n) by {
            if a < n {
                assert(is_white_space(s[a]));
            }
        }
        assert(name =~= seq![]);
    }
}

proof fn lemma_only_white_before(s: Seq<char>, start: int)
    requires
        0 <= start <= s.len(),
    ensures
        forall|k: int| start <= k < trimmed_start(s, start) ==> is_white_space(#[trigger] s[k]),
    decreases s.len() - start,
{
    if start < s.len() && is_white_space(s[start]) {
        lemma_only_white_before(s, start + 1);
    }
}

/// A line brings the name that stands in it, without the white space around it,
/// and a blank line brings nothing.
pub proof fn law_line_brings_its_branch(left: Seq<char>, name: Seq<char>, right: Seq<char>)
    requires
        forall|i: int| 0 <= i < left.len() ==> is_white_space(#[trigger] left[i]) && left[i] != '\n',
        forall|i: int| 0 <= i < right.len() ==> is_white_space(#[trigger] right[i]) && right[i] != '\n',
        !name.contains('\n'),
        name.len() > 0 ==> !is_white_space(name.first()) && !is_white_space(name.last()),
    ensures
        branch_names(Some(left + name + right)) == (if name.len() > 0 {
            seq![name]
        } else {
            seq![]
        }),
{
    let s = left + name + right;
    lemma_trimmed_of_padded(left, name, right);
    text::lemma_first_index(s, '\n', 0);
    assert forall|i: int| 0 <= i < s.len() implies s[i] != '\n' by {
        if i < left.len() {
            assert(s[i] == left[i]);
        } else if i < left.len() + name.len() {
            assert(s[i] == name[i - left.len()]);
            assert(name.contains(name[i - left.len()]));
        } else {
            assert(s[i] == right[i - left.len() - name.len()]);
        }
    }
    assert(s.subrange(0, s.len() as int) =~= s);
    assert(lines(s, 0) =~= seq![s]);
    reveal_with_fuel(kept_lines, 2);
    assert(seq![s].drop_first() =~= seq![]);
    assert(kept_lines(seq![s]) =~= if name.len() > 0 {
        seq![name]
    } else {
        seq![]
    });
}

/// Each generator looks at its own part of the working directory alone.
pub proof fn law_generators_read_their_own_input(kind: GeneratorKind, cwd: WorkingDirView, other: WorkingDirView)
    requires
        kind is FilePath || kind is DirPath ==> cwd.entries == other.entries,
        kind is GitBranches ==> cwd.branch_output == other.branch_output,
        kind is PackageJsonScripts ==> cwd.package_json == other.package_json,
    ensures
        resolved(kind, cwd) == resolved(kind, other),
        kind is GitBranches ==> resolved(kind, cwd) == branch_names(cwd.branch_output),
        kind is PackageJsonScripts ==> resolved(kind, cwd) == script_names(cwd.package_json),
{
}

/// What was read stands for itself: entries with their names and whether they are
/// directories, the output of `git branch` and the text of `package.json`.
pub proof fn law_working_dir_shows_every_field(e: &DirEntry, cwd: &WorkingDir)
    ensures
        e.name is None <==> e@.name is None,
        e.name is Some ==> e@.name == Some(e.name->0@),
        e@.is_dir == e.is_dir,
        cwd.entries is None <==> cwd@.entries is None,
        cwd.entries matches Some(list) ==> {
            &&& cwd@.entries->0.len() == list@.len()
            &&& forall|i: int| 0 <= i < list@.len() ==> #[trigger] cwd@.entries->0[i] == list@[i]@
        },
        cwd.branch_output is None <==> cwd@.branch_output is None,
        cwd.branch_output is Some ==> cwd@.branch_output == Some(cwd.branch_output->0@),
        cwd.package_json is None <==> cwd@.package_json is None,
        cwd.package_json is Some ==> cwd@.package_json == Some(cwd.package_json->0@),
{
}

} // verus!
