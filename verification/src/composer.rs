//! The manifest (`composer.json`) and its lock file (`composer.lock`).

use vstd::prelude::*;
use std::collections::HashMap;
use crate::json::{
    array_items, array_of, decode, json_node, member_value, names_differ, object_members,
    object_of, pairs, string_of, string_value, texts, value_of, JsonNode, Member, Node,
};
use crate::lines::{
    is_key_line, is_located, lemma_key_line_unique, lemma_located_unique, located_line, LineTable,
};
use crate::text::{chars_of, ends_with, has_suffix, same_text, split, string_of as text_of};

verus! {

broadcast use vstd::std_specs::hash::group_hash_axioms;

/// The installed versions recorded by a lock file, at most one per package
/// name.
#[derive(Debug, PartialEq, Clone)]
pub struct ComposerLockFile {
    pub versions: Vec<InstalledPackage>,
}

/// A dependency declared in the manifest: its name, its constraint as
/// written, and the 0-based line on which it stands.
#[derive(Debug, PartialEq, Clone)]
pub struct ComposerDependency {
    pub name: String,
    pub version: String,
    pub line: u32,
}

/// A package recorded by the lock file, with its normalized version.
#[derive(Debug, PartialEq, Clone)]
pub struct InstalledPackage {
    pub name: String,
    pub version: String,
}

/// A parsed manifest with the lock data that belongs to it.
#[derive(Debug, PartialEq, Clone)]
pub struct ComposerFile {
    pub path: String,
    pub dependencies: Vec<ComposerDependency>,
    pub dev_dependencies: Vec<ComposerDependency>,
    pub lock: Option<ComposerLockFile>,
    pub dependencies_by_line: HashMap<u32, String>,
}

/// A name with the constraint decoded for it, before its line is known.
#[derive(Debug, Clone)]
pub struct Requirement {
    pub name: String,
    pub constraint: String,
}

/// What a `ComposerDependency` holds.
pub struct Dependency {
    pub name: Seq<char>,
    pub version: Seq<char>,
    pub line: u32,
}

impl View for ComposerDependency {
    type V = Dependency;

    open spec fn view(&self) -> Dependency {
        Dependency { name: self.name@, version: self.version@, line: self.line }
    }
}

/// What a vector of dependencies holds.
pub open spec fn dependency_views(v: Seq<ComposerDependency>) -> Seq<Dependency> {
    Seq::new(v.len(), |i: int| v[i]@)
}

/// The names and constraints held by a vector of requirements.
pub open spec fn requirement_views(v: Seq<Requirement>) -> Seq<(Seq<char>, Seq<char>)> {
    Seq::new(v.len(), |i: int| (v[i].name@, v[i].constraint@))
}

/// The texts that a line index maps to.
pub open spec fn index_view(m: Map<u32, String>) -> Map<u32, Seq<char>> {
    Map::new(|line: u32| m.contains_key(line), |line: u32| m[line]@)
}

/// What a `ComposerFile` holds: the lock as a map from package name to
/// installed version, the line index as a map from line to name.
pub struct Manifest {
    pub path: Seq<char>,
    pub dependencies: Seq<Dependency>,
    pub dev_dependencies: Seq<Dependency>,
    pub lock: Option<Map<Seq<char>, Seq<char>>>,
    pub index: Map<u32, Seq<char>>,
}

/// The 1-based number of the line on which `name` is declared in `block`:
/// the first line after the one that holds the block's key, and before the
/// depth is back at that line's, that holds the name in quotes. `None` where
/// there is no such line or its number does not fit.
pub open spec fn line_number_in(lines: Seq<Seq<char>>, block: Seq<char>, name: Seq<char>) -> Option<
    u32,
> {
    match located_line(lines, block, name) {
        Some(j) => if j + 1 <= u32::MAX {
            Some((j + 1) as u32)
        } else {
            None
        },
        None => None,
    }
}

/// `line_number_in` on the lines of `text`.
pub open spec fn line_number(text: Seq<char>, block: Seq<char>, name: Seq<char>) -> Option<u32> {
    line_number_in(split(text, '\n'), block, name)
}

/// The requirements whose line is found in `block`, in order, each with its
/// 0-based line.
pub open spec fn located(
    lines: Seq<Seq<char>>,
    block: Seq<char>,
    entries: Seq<(Seq<char>, Seq<char>)>,
) -> Seq<Dependency>
    decreases entries.len(),
{
    if entries.len() == 0 {
        Seq::empty()
    } else {
        let before = located(lines, block, entries.drop_last());
        let (name, version) = entries.last();
        match line_number_in(lines, block, name) {
            Some(n) => before.push(Dependency { name, version, line: (n - 1) as u32 }),
            None => before,
        }
    }
}

/// `index` with the lines of `deps` added, in order: a line that is already
/// in the index keeps the name it has.
pub open spec fn with_lines(index: Map<u32, Seq<char>>, deps: Seq<Dependency>) -> Map<
    u32,
    Seq<char>,
>
    decreases deps.len(),
{
    if deps.len() == 0 {
        index
    } else {
        let before = with_lines(index, deps.drop_last());
        if before.contains_key(deps.last().line) {
            before
        } else {
            before.insert(deps.last().line, deps.last().name)
        }
    }
}

/// The line index of `deps`: each line maps to the name of the first
/// dependency that stands on it.
pub open spec fn line_index(deps: Seq<Dependency>) -> Map<u32, Seq<char>> {
    with_lines(Map::empty(), deps)
}

/// Adding the lines of `a + b` is adding those of `a`, then those of `b`.
pub proof fn lemma_with_lines_concat(index: Map<u32, Seq<char>>, a: Seq<Dependency>, b: Seq<Dependency>)
    ensures
        with_lines(index, a + b) == with_lines(with_lines(index, a), b),
    decreases b.len(),
{
    if b.len() == 0 {
        assert(a + b =~= a);
    } else {
        lemma_with_lines_concat(index, a, b.drop_last());
        assert((a + b).drop_last() =~= a + b.drop_last());
    }
}

/// The constraints of a block's members, each decoded as a string; `None`
/// where one of them is not a string.
pub open spec fn constraints_of(entries: Seq<(Seq<char>, Seq<char>)>) -> Option<
    Seq<(Seq<char>, Seq<char>)>,
>
    decreases entries.len(),
{
    if entries.len() == 0 {
        Some(Seq::empty())
    } else {
        match (constraints_of(entries.drop_last()), string_of(entries.last().1)) {
            (Some(before), Some(constraint)) => Some(before.push((entries.last().0, constraint))),
            _ => None,
        }
    }
}

/// The names and constraints of the block `key` of a manifest's top level:
/// none where the manifest has no such member, `None` where the member is
/// not an object of strings.
pub open spec fn block_of(top: Seq<(Seq<char>, Seq<char>)>, key: Seq<char>) -> Option<
    Seq<(Seq<char>, Seq<char>)>,
> {
    match value_of(top, key) {
        None => Some(Seq::empty()),
        Some(raw) => match object_of(raw) {
            Some(entries) => constraints_of(entries),
            None => None,
        },
    }
}

/// The names and constraints that a manifest declares under `require` and
/// under `require-dev`. `None` where the text is not JSON at all; nothing
/// where it is JSON of another shape than a manifest's.
pub open spec fn requirements_of(text: Seq<char>) -> Option<
    (Seq<(Seq<char>, Seq<char>)>, Seq<(Seq<char>, Seq<char>)>),
> {
    match json_node(text) {
        None => None,
        Some(Node::Object(top)) => match (block_of(top, "require"@), block_of(top, "require-dev"@)) {
            (Some(require), Some(require_dev)) => Some((require, require_dev)),
            _ => Some((Seq::empty(), Seq::empty())),
        },
        Some(_) => Some((Seq::empty(), Seq::empty())),
    }
}

/// The manifest made of decoded requirements, the lines of the text they
/// were decoded from, and the lock data. Where a line holds a name of both
/// blocks, the index keeps the one of `require`.
pub open spec fn assembled(
    path: Seq<char>,
    lines: Seq<Seq<char>>,
    require: Seq<(Seq<char>, Seq<char>)>,
    require_dev: Seq<(Seq<char>, Seq<char>)>,
    lock: Option<Map<Seq<char>, Seq<char>>>,
) -> Manifest {
    let dependencies = located(lines, "require"@, require);
    let dev_dependencies = located(lines, "require-dev"@, require_dev);
    Manifest {
        path,
        dependencies,
        dev_dependencies,
        lock,
        index: line_index(dependencies + dev_dependencies),
    }
}

/// The text of an optional string slice.
pub open spec fn optional_text(text: Option<&str>) -> Option<Seq<char>> {
    match text {
        Some(t) => Some(t@),
        None => None,
    }
}

/// What a lock document records, where there is one.
pub open spec fn optional_lock(text: Option<Seq<char>>) -> Option<Map<Seq<char>, Seq<char>>> {
    match text {
        Some(t) => lock_of(t),
        None => None,
    }
}

/// The manifest that the document at `path` with the text `text` holds,
/// beside a lock file with the text `lock_text` (`None`: no lock file).
/// `None` where the path does not end in `composer.json`, or the text is
/// not JSON.
pub open spec fn manifest_of(path: Seq<char>, text: Seq<char>, lock_text: Option<Seq<char>>) -> Option<
    Manifest,
> {
    if !ends_with(path, "composer.json"@) {
        None
    } else {
        match requirements_of(text) {
            None => None,
            Some((require, require_dev)) => Some(
                assembled(path, split(text, '\n'), require, require_dev, optional_lock(lock_text)),
            ),
        }
    }
}

/// The path of the lock file that belongs to the manifest at `path`: the
/// same path with `composer.lock` for the trailing `composer.json`.
pub open spec fn lock_path_of(path: Seq<char>) -> Option<Seq<char>> {
    if ends_with(path, "composer.json"@) {
        Some(path.subrange(0, path.len() - "composer.json"@.len()) + "composer.lock"@)
    } else {
        None
    }
}

impl ComposerFile {
    pub fn new(
        path: String,
        dependencies: Vec<ComposerDependency>,
        dev_dependencies: Vec<ComposerDependency>,
        lock: Option<ComposerLockFile>,
        dependencies_by_line: HashMap<u32, String>,
    ) -> (file: ComposerFile)
        ensures
            file.path == path,
            file.dependencies == dependencies,
            file.dev_dependencies == dev_dependencies,
            file.lock == lock,
            file.dependencies_by_line == dependencies_by_line,
    {
        ComposerFile { path, dependencies, dev_dependencies, lock, dependencies_by_line }
    }

    /// The 1-based number of the line of `contents` on which
    /// `dependency_name` is declared in the block `block_name`.
    pub fn get_line_num(contents: &str, block_name: &str, dependency_name: &str) -> (r: Option<u32>)
        ensures
            r == line_number(contents@, block_name@, dependency_name@),
    {
        let text = chars_of(contents);
        let table = LineTable::new(text.as_slice());
        Self::line_in(&table, block_name, dependency_name)
    }

    /// `get_line_num` on a text that is already cut into lines.
    pub fn line_in(table: &LineTable, block_name: &str, dependency_name: &str) -> (r: Option<u32>)
        ensures
            r == line_number_in(table@, block_name@, dependency_name@),
    {
        let block = chars_of(block_name);
        let name = chars_of(dependency_name);
        match table.locate(block.as_slice(), name.as_slice()) {
            Some(j) => if j < u32::MAX as usize {
                Some((j + 1) as u32)
            } else {
                None
            },
            None => None,
        }
    }

    /// The dependencies of `block` whose line is found in `table`, in the
    /// order of `entries`.
    pub fn locate_dependencies(
        table: &LineTable,
        block_name: &str,
        entries: &Vec<Requirement>,
    ) -> (deps: Vec<ComposerDependency>)
        ensures
            dependency_views(deps@) == located(table@, block_name@, requirement_views(entries@)),
    {
        let mut deps: Vec<ComposerDependency> = Vec::new();
        let mut i: usize = 0;
        let ghost all = requirement_views(entries@);
        proof {
            assert(all.take(0) =~= Seq::empty());
            assert(dependency_views(deps@) =~= Seq::empty());
        }
        while i < entries.len()
            invariant
                i <= entries.len(),
                all == requirement_views(entries@),
                dependency_views(deps@) == located(table@, block_name@, all.take(i as int)),
            decreases entries.len() - i,
        {
            let entry = &entries[i];
            proof {
                let next = all.take(i + 1);
                assert(next.drop_last() =~= all.take(i as int));
                assert(next.last() == (entry.name@, entry.constraint@));
            }
            let ghost before = dependency_views(deps@);
            match Self::line_in(table, block_name, entry.name.as_str()) {
                Some(n) => {
                    let dep = ComposerDependency {
                        name: entry.name.clone(),
                        version: entry.constraint.clone(),
                        line: n - 1,
                    };
                    deps.push(dep);
                    proof {
                        assert(dependency_views(deps@) =~= before.push(
                            Dependency {
                                name: entry.name@,
                                version: entry.constraint@,
                                line: (n - 1) as u32,
                            },
                        ));
                    }
                },
                None => {},
            }
            i += 1;
        }
        proof {
            assert(all.take(all.len() as int) =~= all);
        }
        deps
    }
}


/// Index `i` holds the entry of `v` for package `name`: the first one of
/// that name.
pub open spec fn is_entry(v: Seq<InstalledPackage>, name: Seq<char>, i: int) -> bool {
    &&& 0 <= i < v.len()
    &&& v[i].name@ == name
    &&& forall|k: int| 0 <= k < i ==> (#[trigger] v[k]).name@ != name
}

/// No package name has two entries.
pub open spec fn distinct_names(v: Seq<InstalledPackage>) -> bool {
    forall|i: int, j: int|
        0 <= i < v.len() && 0 <= j < v.len() && (#[trigger] v[i]).name@ == (#[trigger] v[j]).name@
            ==> i == j
}

/// The installed version of each package that has an entry.
pub open spec fn installed(v: Seq<InstalledPackage>) -> Map<Seq<char>, Seq<char>> {
    Map::new(
        |name: Seq<char>| exists|i: int| is_entry(v, name, i),
        |name: Seq<char>| v[choose|i: int| is_entry(v, name, i)].version@,
    )
}

/// A quote character, double or single.
pub open spec fn is_quote(c: char) -> bool {
    c == '"' || c == '\''
}

/// `s` without its quote characters.
pub open spec fn without_quotes(s: Seq<char>) -> Seq<char>
    decreases s.len(),
{
    if s.len() == 0 {
        s
    } else if is_quote(s.last()) {
        without_quotes(s.drop_last())
    } else {
        without_quotes(s.drop_last()).push(s.last())
    }
}

/// A version as the lock file is compared by: without quote characters and
/// without one leading `v`.
pub open spec fn normalized_version(raw: Seq<char>) -> Seq<char> {
    let bare = without_quotes(raw);
    if bare.len() > 0 && bare[0] == 'v' {
        bare.drop_first()
    } else {
        bare
    }
}

/// The name and normalized version that an item of the `packages` array
/// records: `None` unless it is an object with a `name` and a `version`.
pub open spec fn entry_of(item: Seq<char>) -> Option<(Seq<char>, Seq<char>)> {
    match object_of(item) {
        None => None,
        Some(fields) => match (value_of(fields, "name"@), value_of(fields, "version"@)) {
            (Some(name), Some(version)) => Some(
                (without_quotes(name), normalized_version(version)),
            ),
            _ => None,
        },
    }
}

/// `versions` with what the items record added; of two items for one name
/// the later one counts.
pub open spec fn recorded_on(versions: Map<Seq<char>, Seq<char>>, items: Seq<Seq<char>>) -> Map<
    Seq<char>,
    Seq<char>,
>
    decreases items.len(),
{
    if items.len() == 0 {
        versions
    } else {
        let before = recorded_on(versions, items.drop_last());
        match entry_of(items.last()) {
            Some((name, version)) => before.insert(name, version),
            None => before,
        }
    }
}

/// The installed versions that the items record; of two items for one name
/// the later one counts.
pub open spec fn recorded(items: Seq<Seq<char>>) -> Map<Seq<char>, Seq<char>> {
    recorded_on(Map::empty(), items)
}

/// The installed versions that a lock document records. `None` where the
/// text is not a JSON object, or its `packages` member is not an array; no
/// `packages` member at all records nothing.
pub open spec fn lock_of(text: Seq<char>) -> Option<Map<Seq<char>, Seq<char>>> {
    match object_of(text) {
        None => None,
        Some(top) => match value_of(top, "packages"@) {
            None => Some(Map::empty()),
            Some(raw) => match array_of(raw) {
                None => None,
                Some(items) => Some(recorded(items)),
            },
        },
    }
}

/// `raw` without its quote characters.
pub fn strip_quotes(raw: &str) -> (s: String)
    ensures
        s@ == without_quotes(raw@),
{
    let chars = chars_of(raw);
    let bare = bare_chars(chars.as_slice());
    text_of(bare.as_slice())
}

/// `raw` without its quote characters and without one leading `v`.
pub fn normalize_version(raw: &str) -> (s: String)
    ensures
        s@ == normalized_version(raw@),
{
    let chars = chars_of(raw);
    let bare = bare_chars(chars.as_slice());
    if bare.len() > 0 && bare[0] == 'v' {
        let rest = &bare.as_slice()[1..bare.len()];
        proof {
            assert(rest@ =~= bare@.drop_first());
        }
        text_of(rest)
    } else {
        text_of(bare.as_slice())
    }
}

fn bare_chars(chars: &[char]) -> (bare: Vec<char>)
    ensures
        bare@ == without_quotes(chars@),
{
    let mut bare: Vec<char> = Vec::new();
    let mut i: usize = 0;
    proof {
        assert(chars@.take(0) =~= Seq::<char>::empty());
    }
    while i < chars.len()
        invariant
            i <= chars.len(),
            bare@ == without_quotes(chars@.take(i as int)),
        decreases chars.len() - i,
    {
        let c = chars[i];
        proof {
            let next = chars@.take(i + 1);
            assert(next.drop_last() =~= chars@.take(i as int));
            assert(next.last() == c);
        }
        if !(c == '"' || c == '\'') {
            bare.push(c);
        }
        i += 1;
    }
    proof {
        assert(chars@.take(chars@.len() as int) =~= chars@);
    }
    bare
}

impl View for ComposerLockFile {
    type V = Map<Seq<char>, Seq<char>>;

    open spec fn view(&self) -> Map<Seq<char>, Seq<char>> {
        installed(self.versions@)
    }
}

impl ComposerLockFile {
    /// No package name has two entries.
    pub open spec fn wf(&self) -> bool {
        distinct_names(self.versions@)
    }

    /// A lock file that records nothing.
    pub fn new() -> (lock: ComposerLockFile)
        ensures
            lock.wf(),
            lock@ == Map::<Seq<char>, Seq<char>>::empty(),
    {
        let lock = ComposerLockFile { versions: Vec::new() };
        proof {
            assert(lock@ =~= Map::<Seq<char>, Seq<char>>::empty());
        }
        lock
    }

    /// The index of the first entry for `name`.
    pub fn position(&self, name: &str) -> (r: Option<usize>)
        ensures
            match r {
                Some(i) => is_entry(self.versions@, name@, i as int),
                None => forall|k: int|
                    0 <= k < self.versions@.len() ==> (#[trigger] self.versions@[k]).name@ != name@,
            },
    {
        let mut i: usize = 0;
        while i < self.versions.len()
            invariant
                i <= self.versions.len(),
                forall|k: int| 0 <= k < i ==> (#[trigger] self.versions@[k]).name@ != name@,
            decreases self.versions.len() - i,
        {
            if same_text(self.versions[i].name.as_str(), name) {
                return Some(i);
            }
            i += 1;
        }
        None
    }

    /// The entry for `name`, if the lock file has one.
    pub fn get(&self, name: &str) -> (r: Option<&InstalledPackage>)
        ensures
            match r {
                Some(package) => self@.contains_key(name@) && package.name@ == name@
                    && package.version@ == self@[name@],
                None => !self@.contains_key(name@),
            },
    {
        match self.position(name) {
            Some(i) => {
                proof {
                    lemma_entry_unique(
                        self.versions@,
                        name@,
                        i as int,
                        choose|c: int| is_entry(self.versions@, name@, c),
                    );
                }
                Some(&self.versions[i])
            },
            None => {
                proof {
                    assert forall|c: int| !is_entry(self.versions@, name@, c) by {
                        if 0 <= c < self.versions@.len() {
                            assert(self.versions@[c].name@ != name@);
                        }
                    }
                }
                None
            },
        }
    }

    /// Records `version` as the installed version of `name`, in place of what
    /// was recorded for that name before.
    pub fn record(&mut self, name: String, version: String)
        ensures
            final(self)@ == old(self)@.insert(name@, version@),
            old(self).wf() ==> final(self).wf(),
    {
        let ghost before = self.versions@;
        let found = self.position(name.as_str());
        let ghost key = name@;
        let ghost value = version@;
        let package = InstalledPackage { name, version };
        match found {
            Some(i) => {
                self.versions.set(i, package);
                proof {
                    let after = self.versions@;
                    assert forall|k: int| 0 <= k < after.len() implies (#[trigger] after[k]).name@
                        == before[k].name@ by {}
                    assert forall|n: Seq<char>, k: int| is_entry(after, n, k) == is_entry(
                        before,
                        n,
                        k,
                    ) by {
                        lemma_same_names(before, after, n, k);
                    }
                    assert forall|n: Seq<char>| #[trigger]
                        installed(after).contains_key(n) implies installed(after)[n] == installed(
                        before,
                    ).insert(key, value)[n] by {
                        let a = choose|k: int| is_entry(after, n, k);
                        let b = choose|k: int| is_entry(before, n, k);
                        assert(is_entry(before, n, a));
                        lemma_entry_unique(before, n, a, b);
                        if n == key {
                            lemma_entry_unique(before, n, a, i as int);
                        }
                    }
                    assert(installed(after) =~= installed(before).insert(key, value)) by {
                        assert(is_entry(before, key, i as int));
                    }
                    if distinct_names(before) {
                        assert forall|a: int, b: int|
                            0 <= a < after.len() && 0 <= b < after.len() && (
                            #[trigger] after[a]).name@ == (#[trigger] after[b]).name@ implies a
                            == b by {
                            assert(before[a].name@ == after[a].name@);
                            assert(before[b].name@ == after[b].name@);
                        }
                    }
                }
            },
            None => {
                self.versions.push(package);
                proof {
                    let after = self.versions@;
                    let last = before.len() as int;
                    assert forall|k: int| 0 <= k < before.len() implies (#[trigger] after[k])
                        == before[k] by {}
                    assert forall|n: Seq<char>, k: int| is_entry(after, n, k) == (is_entry(
                        before,
                        n,
                        k,
                    ) || (k == last && n == key)) by {
                        lemma_one_more(before, after, n, k);
                    }
                    assert forall|n: Seq<char>| #[trigger]
                        installed(after).contains_key(n) implies installed(after)[n] == installed(
                        before,
                    ).insert(key, value)[n] by {
                        let a = choose|k: int| is_entry(after, n, k);
                        if n != key {
                            let b = choose|k: int| is_entry(before, n, k);
                            assert(is_entry(before, n, a));
                            lemma_entry_unique(before, n, a, b);
                        } else {
                            assert(!is_entry(before, n, a)) by {
                                if 0 <= a < before.len() {
                                    assert(before[a].name@ != key);
                                }
                            }
                        }
                    }
                    assert(installed(after) =~= installed(before).insert(key, value)) by {
                        assert(is_entry(after, key, last));
                    }
                    if distinct_names(before) {
                        assert forall|a: int, b: int|
                            0 <= a < after.len() && 0 <= b < after.len() && (
                            #[trigger] after[a]).name@ == (#[trigger] after[b]).name@ implies a
                            == b by {
                            if a < last {
                                assert(before[a].name@ != key);
                            }
                            if b < last {
                                assert(before[b].name@ != key);
                            }
                        }
                    }
                }
            },
        }
    }

    /// Records what the items of a `packages` array hold, in order.
    pub fn record_items(&mut self, items: &Vec<String>)
        ensures
            final(self)@ == recorded_on(old(self)@, texts(items@)),
            old(self).wf() ==> final(self).wf(),
    {
        let ghost all = texts(items@);
        let ghost start = self@;
        let ghost sound = self.wf();
        let mut i: usize = 0;
        proof {
            assert(all.take(0) =~= Seq::empty());
        }
        while i < items.len()
            invariant
                i <= items.len(),
                all == texts(items@),
                sound ==> self.wf(),
                self@ == recorded_on(start, all.take(i as int)),
            decreases items.len() - i,
        {
            proof {
                let next = all.take(i + 1);
                assert(next.drop_last() =~= all.take(i as int));
                assert(next.last() == items@[i as int]@);
            }
            match object_members(items[i].as_str()) {
                Some(fields) => {
                    let name = member_value(&fields, "name");
                    let version = member_value(&fields, "version");
                    match (name, version) {
                        (Some(name), Some(version)) => {
                            let name = strip_quotes(name.as_str());
                            let version = normalize_version(version.as_str());
                            self.record(name, version);
                        },
                        _ => {},
                    }
                },
                None => {},
            }
            i += 1;
        }
        proof {
            assert(all.take(all.len() as int) =~= all);
        }
    }
}

/// At most one index holds the entry for a name.
pub proof fn lemma_entry_unique(v: Seq<InstalledPackage>, name: Seq<char>, i: int, j: int)
    requires
        is_entry(v, name, i),
        is_entry(v, name, j),
    ensures
        i == j,
{
    if i < j {
        assert(v[i].name@ != name);
    } else if j < i {
        assert(v[j].name@ != name);
    }
}

/// Two vectors with the same names at the same indices hold their entries
/// at the same indices.
proof fn lemma_same_names(v: Seq<InstalledPackage>, w: Seq<InstalledPackage>, name: Seq<char>, i: int)
    requires
        v.len() == w.len(),
        forall|k: int| 0 <= k < w.len() ==> (#[trigger] w[k]).name@ == v[k].name@,
    ensures
        is_entry(w, name, i) == is_entry(v, name, i),
{
    if is_entry(v, name, i) {
        assert forall|k: int| 0 <= k < i implies (#[trigger] w[k]).name@ != name by {
            assert(v[k].name@ != name);
        }
    }
    if is_entry(w, name, i) {
        assert forall|k: int| 0 <= k < i implies (#[trigger] v[k]).name@ != name by {
            assert(w[k].name@ == v[k].name@);
        }
    }
}

/// A vector with one more item, of a name that it did not hold, has its
/// entries where they were, and the entry for the new name at its end.
proof fn lemma_one_more(v: Seq<InstalledPackage>, w: Seq<InstalledPackage>, name: Seq<char>, i: int)
    requires
        w.len() == v.len() + 1,
        forall|k: int| 0 <= k < v.len() ==> (#[trigger] w[k]) == v[k],
        forall|k: int| 0 <= k < v.len() ==> (#[trigger] v[k]).name@ != w[v.len() as int].name@,
    ensures
        is_entry(w, name, i) == (is_entry(v, name, i) || (i == v.len() && name == w.last().name@)),
{
    let last = v.len() as int;
    if is_entry(v, name, i) {
        assert forall|k: int| 0 <= k < i implies (#[trigger] w[k]).name@ != name by {
            assert(v[k].name@ != name);
        }
    }
    if is_entry(w, name, i) && i < last {
        assert forall|k: int| 0 <= k < i implies (#[trigger] v[k]).name@ != name by {
            assert(w[k] == v[k]);
        }
    }
    if i == last && name == w[last].name@ {
        assert forall|k: int| 0 <= k < i implies (#[trigger] w[k]).name@ != name by {
            assert(v[k].name@ != name);
        }
    }
}

impl View for ComposerFile {
    type V = Manifest;

    open spec fn view(&self) -> Manifest {
        Manifest {
            path: self.path@,
            dependencies: dependency_views(self.dependencies@),
            dev_dependencies: dependency_views(self.dev_dependencies@),
            lock: match self.lock {
                Some(lock) => Some(lock@),
                None => None,
            },
            index: index_view(self.dependencies_by_line@),
        }
    }
}

/// Decodes the constraint of each member of a block.
pub fn decode_constraints(entries: &Vec<Member>) -> (r: Option<Vec<Requirement>>)
    ensures
        match r {
            Some(v) => constraints_of(pairs(entries@)) == Some(requirement_views(v@)),
            None => constraints_of(pairs(entries@)).is_none(),
        },
        r matches Some(v) ==> (names_differ(pairs(entries@)) ==> names_differ(
            requirement_views(v@),
        )),
{
    let ghost all = pairs(entries@);
    let mut out: Vec<Requirement> = Vec::new();
    let mut i: usize = 0;
    proof {
        assert(all.take(0) =~= Seq::empty());
        assert(requirement_views(out@) =~= Seq::empty());
    }
    while i < entries.len()
        invariant
            i <= entries.len(),
            all == pairs(entries@),
            constraints_of(all.take(i as int)) == Some(requirement_views(out@)),
        decreases entries.len() - i,
    {
        let entry = &entries[i];
        proof {
            let next = all.take(i + 1);
            assert(next.drop_last() =~= all.take(i as int));
            assert(next.last() == (entry.name@, entry.value@));
        }
        let ghost before = requirement_views(out@);
        match string_value(entry.value.as_str()) {
            Some(constraint) => {
                let ghost text = constraint@;
                out.push(Requirement { name: entry.name.clone(), constraint });
                proof {
                    assert(requirement_views(out@) =~= before.push((entry.name@, text)));
                }
            },
            None => {
                proof {
                    lemma_constraints_prefix(all, i + 1);
                }
                return None;
            },
        }
        i += 1;
    }
    proof {
        assert(all.take(all.len() as int) =~= all);
        lemma_constraints_names(all);
    }
    Some(out)
}

/// The constraints of a block's members stand under the names of the
/// members, in the same order.
pub proof fn lemma_constraints_names(entries: Seq<(Seq<char>, Seq<char>)>)
    requires
        constraints_of(entries).is_some(),
    ensures
        constraints_of(entries).unwrap().len() == entries.len(),
        forall|i: int|
            0 <= i < entries.len() ==> (#[trigger] constraints_of(entries).unwrap()[i]).0
                == entries[i].0,
        names_differ(entries) ==> names_differ(constraints_of(entries).unwrap()),
    decreases entries.len(),
{
    if entries.len() > 0 {
        let rest = entries.drop_last();
        lemma_constraints_names(rest);
        let before = constraints_of(rest).unwrap();
        let all = constraints_of(entries).unwrap();
        assert forall|i: int| 0 <= i < entries.len() implies (#[trigger] all[i]).0
            == entries[i].0 by {
            if i < rest.len() {
                assert(all[i] == before[i]);
                assert(rest[i] == entries[i]);
            }
        }
        if names_differ(entries) {
            assert forall|i: int, j: int| 0 <= i < j < all.len() implies (#[trigger] all[i]).0 != (
            #[trigger] all[j]).0 by {
                assert(all[i].0 == entries[i].0);
                assert(all[j].0 == entries[j].0);
            }
        }
    }
}

/// Where a prefix of the members holds a constraint that is not a string,
/// so do all of them.
pub proof fn lemma_constraints_prefix(entries: Seq<(Seq<char>, Seq<char>)>, k: int)
    requires
        0 <= k <= entries.len(),
        constraints_of(entries.take(k)).is_none(),
    ensures
        constraints_of(entries).is_none(),
    decreases entries.len() - k,
{
    if k == entries.len() {
        assert(entries.take(k) =~= entries);
    } else {
        assert(entries.take(k + 1).drop_last() =~= entries.take(k));
        lemma_constraints_prefix(entries, k + 1);
    }
}

/// Decodes the block `key` of a manifest's top level.
pub fn decode_block(top: &Vec<Member>, key: &str) -> (r: Option<Vec<Requirement>>)
    ensures
        match r {
            Some(v) => block_of(pairs(top@), key@) == Some(requirement_views(v@)) && names_differ(
                requirement_views(v@),
            ),
            None => block_of(pairs(top@), key@).is_none(),
        },
{
    match member_value(top, key) {
        None => {
            let none: Vec<Requirement> = Vec::new();
            proof {
                assert(requirement_views(none@) =~= Seq::empty());
            }
            Some(none)
        },
        Some(raw) => match object_members(raw.as_str()) {
            Some(entries) => decode_constraints(&entries),
            None => None,
        },
    }
}

/// Decodes what a manifest declares under `require` and under
/// `require-dev`.
pub fn decode_requirements(contents: &str) -> (r: Option<(Vec<Requirement>, Vec<Requirement>)>)
    ensures
        match r {
            Some((require, require_dev)) => {
                &&& requirements_of(contents@) == Some(
                    (requirement_views(require@), requirement_views(require_dev@)),
                )
                &&& names_differ(requirement_views(require@))
                &&& names_differ(requirement_views(require_dev@))
            },
            None => requirements_of(contents@).is_none(),
        },
{
    match decode(contents) {
        None => None,
        Some(JsonNode::Object(top)) => {
            match (decode_block(&top, "require"), decode_block(&top, "require-dev")) {
                (Some(require), Some(require_dev)) => Some((require, require_dev)),
                _ => Some(no_requirements()),
            }
        },
        Some(_) => Some(no_requirements()),
    }
}

fn no_requirements() -> (r: (Vec<Requirement>, Vec<Requirement>))
    ensures
        requirement_views(r.0@) == Seq::<(Seq<char>, Seq<char>)>::empty(),
        requirement_views(r.1@) == Seq::<(Seq<char>, Seq<char>)>::empty(),
{
    let r: (Vec<Requirement>, Vec<Requirement>) = (Vec::new(), Vec::new());
    proof {
        assert(requirement_views(r.0@) =~= Seq::empty());
        assert(requirement_views(r.1@) =~= Seq::empty());
    }
    r
}

/// Adds the lines of `deps` to `index`, in order; a line that is already in
/// the index keeps the name it has.
pub fn add_lines(index: &mut HashMap<u32, String>, deps: &Vec<ComposerDependency>)
    ensures
        index_view(final(index)@) == with_lines(index_view(old(index)@), dependency_views(deps@)),
{
    let ghost all = dependency_views(deps@);
    let ghost start = index_view(index@);
    let mut i: usize = 0;
    proof {
        assert(all.take(0) =~= Seq::empty());
    }
    while i < deps.len()
        invariant
            i <= deps.len(),
            all == dependency_views(deps@),
            index_view(index@) == with_lines(start, all.take(i as int)),
        decreases deps.len() - i,
    {
        let dep = &deps[i];
        proof {
            let next = all.take(i + 1);
            assert(next.drop_last() =~= all.take(i as int));
            assert(next.last() == dep@);
        }
        let ghost before = index@;
        if !index.contains_key(&dep.line) {
            let name = dep.name.clone();
            index.insert(dep.line, name);
            proof {
                assert(index_view(index@) =~= index_view(before).insert(dep.line, dep.name@));
            }
        }
        i += 1;
    }
    proof {
        assert(all.take(all.len() as int) =~= all);
    }
}

/// The path of the lock file that belongs to the manifest at `path`.
pub fn lock_file_path(path: &str) -> (r: Option<String>)
    ensures
        match r {
            Some(p) => lock_path_of(path@) == Some(p@),
            None => lock_path_of(path@).is_none(),
        },
{
    let chars = chars_of(path);
    let suffix = chars_of("composer.json");
    if !has_suffix(chars.as_slice(), suffix.as_slice()) {
        return None;
    }
    let stem = &chars.as_slice()[0..chars.len() - suffix.len()];
    let mut lock = text_of(stem);
    lock.append("composer.lock");
    Some(lock)
}

impl ComposerFile {
    /// The lock data of the file is well formed.
    pub open spec fn wf(&self) -> bool {
        match self.lock {
            Some(lock) => lock.wf(),
            None => true,
        }
    }

    /// The manifest made of decoded requirements, the text they were decoded
    /// from, cut into lines, and the lock data.
    pub fn assemble(
        path: String,
        table: &LineTable,
        require: &Vec<Requirement>,
        require_dev: &Vec<Requirement>,
        lock: Option<ComposerLockFile>,
    ) -> (file: ComposerFile)
        ensures
            file.lock == lock,
            file@ == assembled(
                path@,
                table@,
                requirement_views(require@),
                requirement_views(require_dev@),
                match lock {
                    Some(l) => Some(l@),
                    None => None,
                },
            ),
    {
        let dependencies = Self::locate_dependencies(table, "require", require);
        let dev_dependencies = Self::locate_dependencies(table, "require-dev", require_dev);
        let mut dependencies_by_line: HashMap<u32, String> = HashMap::new();
        proof {
            assert(index_view(dependencies_by_line@) =~= Map::<u32, Seq<char>>::empty());
        }
        add_lines(&mut dependencies_by_line, &dependencies);
        add_lines(&mut dependencies_by_line, &dev_dependencies);
        proof {
            lemma_with_lines_concat(
                Map::empty(),
                dependency_views(dependencies@),
                dependency_views(dev_dependencies@),
            );
        }
        Self::new(path, dependencies, dev_dependencies, lock, dependencies_by_line)
    }

    /// Parses the manifest at `filepath`, whose text is `contents`, beside a
    /// lock file whose text is `lock_contents` (`None`: no lock file).
    pub fn parse_from_path(filepath: &str, contents: &str, lock_contents: Option<&str>) -> (r: Option<
        ComposerFile,
    >)
        ensures
            match r {
                Some(file) => {
                    &&& manifest_of(filepath@, contents@, optional_text(lock_contents)) == Some(
                        file@,
                    )
                    &&& file.wf()
                    &&& unique_names(file@.dependencies)
                    &&& unique_names(file@.dev_dependencies)
                },
                None => manifest_of(filepath@, contents@, optional_text(lock_contents)).is_none(),
            },
    {
        let path = chars_of(filepath);
        let suffix = chars_of("composer.json");
        if !has_suffix(path.as_slice(), suffix.as_slice()) {
            return None;
        }
        match decode_requirements(contents) {
            None => None,
            Some((require, require_dev)) => {
                let text = chars_of(contents);
                let table = LineTable::new(text.as_slice());
                let lock = match lock_contents {
                    Some(lock_text) => Self::parse_lock_file(lock_text),
                    None => None,
                };
                proof {
                    lemma_located_names(table@, "require"@, requirement_views(require@));
                    lemma_located_names(table@, "require-dev"@, requirement_views(require_dev@));
                }
                Some(Self::assemble(text_of(path.as_slice()), &table, &require, &require_dev, lock))
            },
        }
    }

    /// Decodes a lock document.
    pub fn parse_lock_file(contents: &str) -> (r: Option<ComposerLockFile>)
        ensures
            match r {
                Some(lock) => lock.wf() && lock_of(contents@) == Some(lock@),
                None => lock_of(contents@).is_none(),
            },
    {
        match object_members(contents) {
            None => None,
            Some(top) => match member_value(&top, "packages") {
                None => Some(ComposerLockFile::new()),
                Some(raw) => match array_items(raw.as_str()) {
                    None => None,
                    Some(items) => {
                        let mut lock = ComposerLockFile::new();
                        lock.record_items(&items);
                        Some(lock)
                    },
                },
            },
        }
    }
}

/// No two dependencies have the same name.
pub open spec fn unique_names(deps: Seq<Dependency>) -> bool {
    forall|i: int, j: int|
        0 <= i < j < deps.len() ==> (#[trigger] deps[i]).name != (#[trigger] deps[j]).name
}

/// Entry `i` is the one that the located dependency `k` was made from, and
/// the entries of the dependencies before `k` come before `i`.
pub open spec fn made_from(
    lines: Seq<Seq<char>>,
    block: Seq<char>,
    entries: Seq<(Seq<char>, Seq<char>)>,
    k: int,
    i: int,
) -> bool {
    &&& 0 <= i < entries.len()
    &&& located(lines, block, entries)[k].name == entries[i].0
    &&& located(lines, block, entries.take(i)).len() == k
}

/// Each located dependency is made from an entry, in the order of the
/// entries.
pub proof fn lemma_located_origin(
    lines: Seq<Seq<char>>,
    block: Seq<char>,
    entries: Seq<(Seq<char>, Seq<char>)>,
    k: int,
) -> (i: int)
    requires
        0 <= k < located(lines, block, entries).len(),
    ensures
        made_from(lines, block, entries, k, i),
    decreases entries.len(),
{
    let rest = entries.drop_last();
    let before = located(lines, block, rest);
    if k < before.len() {
        let i = lemma_located_origin(lines, block, rest, k);
        assert(rest.take(i) =~= entries.take(i));
        assert(located(lines, block, entries)[k] == before[k]);
        i
    } else {
        let i = entries.len() - 1;
        assert(entries.take(i) =~= rest);
        i
    }
}

/// Where no two entries have the same name, no two located dependencies
/// have.
pub proof fn lemma_located_names(
    lines: Seq<Seq<char>>,
    block: Seq<char>,
    entries: Seq<(Seq<char>, Seq<char>)>,
)
    requires
        names_differ(entries),
    ensures
        unique_names(located(lines, block, entries)),
{
    let deps = located(lines, block, entries);
    assert forall|a: int, b: int| 0 <= a < b < deps.len() implies (#[trigger] deps[a]).name != (
    #[trigger] deps[b]).name by {
        let i = lemma_located_origin(lines, block, entries, a);
        let j = lemma_located_origin(lines, block, entries, b);
        if i == j {
            assert(false);
        } else if i < j {
            assert(entries[i].0 != entries[j].0);
        } else {
            assert(entries[j].0 != entries[i].0);
        }
    }
}

/// Parsing is a function of its input: two manifests parsed from the same
/// path and the same texts hold the same dependencies, in the same order,
/// and the same line index.
pub proof fn lemma_parse_idempotent(
    path: Seq<char>,
    text: Seq<char>,
    lock_text: Option<Seq<char>>,
    first: ComposerFile,
    second: ComposerFile,
)
    requires
        manifest_of(path, text, lock_text) == Some(first@),
        manifest_of(path, text, lock_text) == Some(second@),
    ensures
        first@.dependencies == second@.dependencies,
        first@.dev_dependencies == second@.dev_dependencies,
        first@.index == second@.index,
        first@ == second@,
{
}

/// A name that is first found `j - s` lines below the line `s` that opens
/// its block, inside the block, is on line `j + 1`, counting from 1.
pub proof fn lemma_line_number(lines: Seq<Seq<char>>, block: Seq<char>, name: Seq<char>, s: int, j: int)
    requires
        is_key_line(lines, block, s),
        is_located(lines, s, name, j),
        j < u32::MAX,
    ensures
        line_number_in(lines, block, name) == Some((j + 1) as u32),
{
    let t = choose|t: int| is_key_line(lines, block, t);
    lemma_key_line_unique(lines, block, s, t);
    let c = choose|c: int| is_located(lines, s, name, c);
    lemma_located_unique(lines, s, name, j, c);
}

/// The located dependencies of `a + b` are those of `a`, then those of `b`.
pub proof fn lemma_located_concat(
    lines: Seq<Seq<char>>,
    block: Seq<char>,
    a: Seq<(Seq<char>, Seq<char>)>,
    b: Seq<(Seq<char>, Seq<char>)>,
)
    ensures
        located(lines, block, a + b) == located(lines, block, a) + located(lines, block, b),
    decreases b.len(),
{
    if b.len() == 0 {
        assert(a + b =~= a);
        assert(located(lines, block, a) + located(lines, block, b) =~= located(lines, block, a));
    } else {
        lemma_located_concat(lines, block, a, b.drop_last());
        assert((a + b).drop_last() =~= a + b.drop_last());
        assert((a + b).last() == b.last());
        let front = located(lines, block, a);
        let back = located(lines, block, b.drop_last());
        match line_number_in(lines, block, b.last().0) {
            Some(n) => {
                let dep = Dependency { name: b.last().0, version: b.last().1, line: (n - 1) as u32 };
                assert((front + back).push(dep) =~= front + back.push(dep));
            },
            None => {},
        }
    }
}

/// Where none of the entries is found on line `line + 1`, none of the
/// located dependencies stands on `line`.
pub proof fn lemma_located_elsewhere(
    lines: Seq<Seq<char>>,
    block: Seq<char>,
    entries: Seq<(Seq<char>, Seq<char>)>,
    line: u32,
)
    requires
        line < u32::MAX,
        forall|k: int|
            0 <= k < entries.len() ==> line_number_in(lines, block, (#[trigger] entries[k]).0)
                != Some((line + 1) as u32),
    ensures
        forall|k: int|
            0 <= k < located(lines, block, entries).len() ==> (#[trigger] located(
                lines,
                block,
                entries,
            )[k]).line != line,
    decreases entries.len(),
{
    if entries.len() > 0 {
        let rest = entries.drop_last();
        assert forall|k: int| 0 <= k < rest.len() implies line_number_in(
            lines,
            block,
            (#[trigger] rest[k]).0,
        ) != Some((line + 1) as u32) by {
            assert(rest[k] == entries[k]);
        }
        lemma_located_elsewhere(lines, block, rest, line);
        assert(line_number_in(lines, block, entries[entries.len() - 1].0) != Some(
            (line + 1) as u32,
        ));
        let before = located(lines, block, rest);
        let all = located(lines, block, entries);
        assert forall|k: int| 0 <= k < all.len() implies (#[trigger] all[k]).line != line by {
            if k < before.len() {
                assert(all[k] == before[k]);
            }
        }
    }
}

/// A line that is in the index stays in it, with its name, when lines are
/// added.
pub proof fn lemma_with_lines_keeps(index: Map<u32, Seq<char>>, deps: Seq<Dependency>, line: u32)
    requires
        index.contains_key(line),
    ensures
        with_lines(index, deps).contains_key(line),
        with_lines(index, deps)[line] == index[line],
    decreases deps.len(),
{
    if deps.len() > 0 {
        lemma_with_lines_keeps(index, deps.drop_last(), line);
    }
}

/// A line on which none of the added dependencies stands is in the index
/// after they are added exactly where it was before.
pub proof fn lemma_with_lines_skips(index: Map<u32, Seq<char>>, deps: Seq<Dependency>, line: u32)
    requires
        forall|k: int| 0 <= k < deps.len() ==> (#[trigger] deps[k]).line != line,
    ensures
        with_lines(index, deps).contains_key(line) == index.contains_key(line),
    decreases deps.len(),
{
    if deps.len() > 0 {
        let rest = deps.drop_last();
        assert forall|k: int| 0 <= k < rest.len() implies (#[trigger] rest[k]).line != line by {
            assert(rest[k] == deps[k]);
        }
        lemma_with_lines_skips(index, rest, line);
        assert(deps[deps.len() - 1].line != line);
    }
}

/// Let the `require` block open on line `s` (0-based; `s + 1`
/// counting from 1), and let the name of entry `i` be first found on line
/// `j` inside the block, on which no other entry of the block is found. Then
/// the manifest holds that entry as a dependency on the 0-based line `j`,
/// and its line index maps `j` to the entry's name.
pub proof fn lemma_line_recovery(
    path: Seq<char>,
    lines: Seq<Seq<char>>,
    require: Seq<(Seq<char>, Seq<char>)>,
    require_dev: Seq<(Seq<char>, Seq<char>)>,
    lock: Option<Map<Seq<char>, Seq<char>>>,
    i: int,
    s: int,
    j: int,
)
    requires
        0 <= i < require.len(),
        is_key_line(lines, "require"@, s),
        is_located(lines, s, require[i].0, j),
        j < u32::MAX,
        forall|k: int|
            0 <= k < require.len() && k != i ==> line_number_in(
                lines,
                "require"@,
                (#[trigger] require[k]).0,
            ) != Some((j + 1) as u32),
    ensures
        assembled(path, lines, require, require_dev, lock).dependencies.contains(
            Dependency { name: require[i].0, version: require[i].1, line: j as u32 },
        ),
        assembled(path, lines, require, require_dev, lock).index.contains_key(j as u32),
        assembled(path, lines, require, require_dev, lock).index[j as u32] == require[i].0,
{
    let block = "require"@;
    let line = j as u32;
    let dep = Dependency { name: require[i].0, version: require[i].1, line };
    let front = require.take(i);
    let one = seq![require[i]];
    let back = require.skip(i + 1);
    lemma_line_number(lines, block, require[i].0, s, j);
    assert(require =~= front + one + back);
    lemma_located_concat(lines, block, front + one, back);
    lemma_located_concat(lines, block, front, one);
    assert(one.drop_last() =~= Seq::empty());
    assert(located(lines, block, one.drop_last()) =~= Seq::empty());
    assert(one.last() == require[i]);
    assert(located(lines, block, one) =~= seq![dep]);
    let before = located(lines, block, front);
    let after = located(lines, block, back);
    let dev = located(lines, "require-dev"@, require_dev);
    let deps = located(lines, block, require);
    assert(deps == before + seq![dep] + after);
    assert(deps[before.len() as int] == dep);
    assert forall|k: int| 0 <= k < front.len() implies line_number_in(
        lines,
        block,
        (#[trigger] front[k]).0,
    ) != Some((line + 1) as u32) by {
        assert(front[k] == require[k]);
    }
    lemma_located_elsewhere(lines, block, front, line);
    lemma_with_lines_skips(Map::empty(), before, line);
    let first = with_lines(Map::empty(), before);
    let second = with_lines(first, seq![dep]);
    assert(seq![dep].drop_last() =~= Seq::empty());
    assert(with_lines(first, seq![dep].drop_last()) == first);
    assert(!first.contains_key(line));
    assert(second == first.insert(line, dep.name));
    assert(deps + dev =~= before + (seq![dep] + (after + dev)));
    lemma_with_lines_concat(Map::empty(), before, seq![dep] + (after + dev));
    lemma_with_lines_concat(first, seq![dep], after + dev);
    lemma_with_lines_keeps(second, after + dev, line);
}

/// Taking the quote characters out of `a + b` is taking them out of `a` and
/// out of `b`.
pub proof fn lemma_without_quotes_concat(a: Seq<char>, b: Seq<char>)
    ensures
        without_quotes(a + b) == without_quotes(a) + without_quotes(b),
    decreases b.len(),
{
    if b.len() == 0 {
        assert(a + b =~= a);
        assert(without_quotes(a) + without_quotes(b) =~= without_quotes(a));
    } else {
        lemma_without_quotes_concat(a, b.drop_last());
        assert((a + b).drop_last() =~= a + b.drop_last());
        assert((a + b).last() == b.last());
        if !is_quote(b.last()) {
            assert((without_quotes(a) + without_quotes(b.drop_last())).push(b.last())
                =~= without_quotes(a) + without_quotes(b.drop_last()).push(b.last()));
        }
    }
}

/// A text without quote characters is left as it is.
pub proof fn lemma_without_quotes_plain(s: Seq<char>)
    requires
        forall|i: int| 0 <= i < s.len() ==> !is_quote(#[trigger] s[i]),
    ensures
        without_quotes(s) == s,
    decreases s.len(),
{
    if s.len() > 0 {
        let rest = s.drop_last();
        assert forall|i: int| 0 <= i < rest.len() implies !is_quote(#[trigger] rest[i]) by {
            assert(rest[i] == s[i]);
        }
        lemma_without_quotes_plain(rest);
        assert(!is_quote(s[s.len() - 1]));
        assert(rest.push(s.last()) =~= s);
    }
}

/// A version that holds no quote character and does not start
/// with `v` is what normalizing makes of itself, of itself after a `v`, and
/// of either in double quotes: a lock version written `"v2.3.1"` and a
/// release version written `2.3.1` are equal after normalization.
pub proof fn lemma_normalize_round_trip(version: Seq<char>)
    requires
        forall|i: int| 0 <= i < version.len() ==> !is_quote(#[trigger] version[i]),
        version.len() == 0 || version[0] != 'v',
    ensures
        normalized_version(version) == version,
        normalized_version(seq!['v'] + version) == version,
        normalized_version(seq!['"'] + version + seq!['"']) == version,
        normalized_version(seq!['"', 'v'] + version + seq!['"']) == version,
{
    lemma_without_quotes_plain(version);
    let quote = seq!['"'];
    assert(without_quotes(Seq::<char>::empty()) =~= Seq::<char>::empty());
    assert(quote.drop_last() =~= Seq::<char>::empty());
    assert(is_quote(quote.last()));
    assert(without_quotes(quote) =~= Seq::<char>::empty());
    let v = seq!['v'];
    assert(v.drop_last() =~= Seq::<char>::empty());
    assert(!is_quote(v.last()));
    assert(without_quotes(v) =~= v);
    let quoted_v = seq!['"', 'v'];
    assert(quoted_v =~= quote + v);
    lemma_without_quotes_concat(quote, v);
    assert(without_quotes(quoted_v) =~= v);

    lemma_without_quotes_concat(v, version);
    assert((v + version).drop_first() =~= version);

    lemma_without_quotes_concat(quote + version, quote);
    lemma_without_quotes_concat(quote, version);
    assert(without_quotes(quote + version + quote) =~= version);

    lemma_without_quotes_concat(quoted_v + version, quote);
    lemma_without_quotes_concat(quoted_v, version);
    assert(without_quotes(quoted_v + version + quote) =~= v + version);
}

} // verus!
