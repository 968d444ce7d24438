//! What the editor is told about a manifest: diagnostics on save, a hover
//! text and a definition address for the dependency on a line, and the
//! commands that install or update packages.
//!
//! The state is the last manifest that was saved, together with the registry
//! data fetched for it. A save replaces both at once.

use vstd::prelude::*;
use crate::composer::{
    dependency_views, manifest_of, normalize_version, normalized_version, ComposerDependency,
    ComposerFile, ComposerLockFile, Dependency, Manifest,
};
use crate::json::texts;
use crate::packagist::{
    fetched, get_package_info, get_packages_info, optional, optional_rows, optional_str,
    package_of, registry_of, release_views, resolve_update, update_of, Package, PackageVersion,
    Registry, RegistryPackage, Release,
};
use crate::text::{
    chars_of, contains, contains_chars, ends_with, has_prefix, has_suffix, same_text, starts_with,
    string_of,
};

verus! {

broadcast use vstd::std_specs::hash::group_hash_axioms;

/// How grave a diagnostic is.
#[derive(Debug, Clone, Copy, PartialEq, Eq)]
pub enum Severity {
    Error,
    Warning,
    Information,
    Hint,
}

/// A remark on one line of the manifest.
#[derive(Debug, Clone, PartialEq, Eq)]
pub struct Diagnostic {
    pub line: u32,
    pub severity: Severity,
    pub message: String,
}

/// What a `Diagnostic` holds.
pub struct Remark {
    pub line: u32,
    pub severity: Severity,
    pub message: Seq<char>,
}

impl View for Diagnostic {
    type V = Remark;

    open spec fn view(&self) -> Remark {
        Remark { line: self.line, severity: self.severity, message: self.message@ }
    }
}

/// What a vector of diagnostics holds.
pub open spec fn remark_views(v: Seq<Diagnostic>) -> Seq<Remark> {
    Seq::new(v.len(), |i: int| v[i]@)
}

/// The installed version of `name`, where there is a lock file and it has
/// an entry for the name.
pub open spec fn installed_for(lock: Option<Map<Seq<char>, Seq<char>>>, name: Seq<char>) -> Option<
    Seq<char>,
> {
    match lock {
        Some(versions) => if versions.contains_key(name) {
            Some(versions[name])
        } else {
            None
        },
        None => None,
    }
}

/// The version that the dependency can be updated to. There is none for a
/// dependency without a name, or without data in the registry.
pub open spec fn update_for(
    dep: Dependency,
    lock: Option<Map<Seq<char>, Seq<char>>>,
    registry: Map<Seq<char>, RegistryPackage>,
) -> Option<Seq<char>> {
    if dep.name.len() == 0 || !registry.contains_key(dep.name) {
        None
    } else {
        update_of(registry[dep.name].versions, dep.version, installed_for(lock, dep.name))
    }
}

/// The message of the diagnostic that announces `version`.
pub open spec fn message_of(version: Seq<char>) -> Seq<char> {
    "Update available: \""@ + version + "\""@
}

/// The diagnostic on a dependency that can be updated to `version`.
pub open spec fn remark_on(dep: Dependency, version: Seq<char>) -> Remark {
    Remark { line: dep.line, severity: Severity::Warning, message: message_of(version) }
}

/// The diagnostics on `deps`, in order: one for each dependency that can be
/// updated.
pub open spec fn remarks_on(
    deps: Seq<Dependency>,
    lock: Option<Map<Seq<char>, Seq<char>>>,
    registry: Map<Seq<char>, RegistryPackage>,
) -> Seq<Remark>
    decreases deps.len(),
{
    if deps.len() == 0 {
        Seq::empty()
    } else {
        let before = remarks_on(deps.drop_last(), lock, registry);
        match update_for(deps.last(), lock, registry) {
            Some(version) => before.push(remark_on(deps.last(), version)),
            None => before,
        }
    }
}

/// Every declared dependency of a manifest: those of `require`, then those
/// of `require-dev`.
pub open spec fn declared(manifest: Manifest) -> Seq<Dependency> {
    manifest.dependencies + manifest.dev_dependencies
}

/// The diagnostics on a manifest, given the registry data.
pub open spec fn diagnostics_of(manifest: Manifest, registry: Map<Seq<char>, RegistryPackage>) -> Seq<
    Remark,
> {
    remarks_on(declared(manifest), manifest.lock, registry)
}

/// The diagnostic on a dependency that can be updated to `version`.
pub fn update_diagnostic(dep: &ComposerDependency, version: &str) -> (d: Diagnostic)
    ensures
        d@ == remark_on(dep@, version@),
{
    let mut message = String::from_str("Update available: \"");
    message.append(version);
    message.append("\"");
    Diagnostic { line: dep.line, severity: Severity::Warning, message }
}

/// The installed version of `name`, where there is a lock file and it has
/// an entry for the name.
pub fn installed_version<'a>(lock: &'a Option<ComposerLockFile>, name: &str) -> (r: Option<&'a String>)
    ensures
        match r {
            Some(v) => Some(v@),
            None => None,
        } == installed_for(
            match lock {
                Some(l) => Some(l@),
                None => None,
            },
            name@,
        ),
{
    match lock {
        Some(lock) => match lock.get(name) {
            Some(package) => Some(&package.version),
            None => None,
        },
        None => None,
    }
}

/// The version that the dependency can be updated to.
pub fn find_update(dep: &ComposerDependency, lock: &Option<ComposerLockFile>, registry: &Registry) -> (r:
    Option<String>)
    ensures
        optional(r) == update_for(
            dep@,
            match lock {
                Some(l) => Some(l@),
                None => None,
            },
            registry@,
        ),
{
    if dep.name.as_str().is_empty() {
        return None;
    }
    match registry.get(dep.name.as_str()) {
        None => None,
        Some(package) => {
            match installed_version(lock, dep.name.as_str()) {
                Some(installed) => resolve_update(
                    &package.versions,
                    dep.version.as_str(),
                    Some(installed.as_str()),
                ),
                None => resolve_update(&package.versions, dep.version.as_str(), None),
            }
        },
    }
}

/// Adds to `out` the diagnostics on `deps`, in order.
pub fn add_diagnostics(
    out: &mut Vec<Diagnostic>,
    deps: &Vec<ComposerDependency>,
    lock: &Option<ComposerLockFile>,
    registry: &Registry,
)
    ensures
        remark_views(final(out)@) == remark_views(old(out)@) + remarks_on(
            dependency_views(deps@),
            match lock {
                Some(l) => Some(l@),
                None => None,
            },
            registry@,
        ),
{
    let ghost all = dependency_views(deps@);
    let ghost start = remark_views(out@);
    let ghost held = match lock {
        Some(l) => Some(l@),
        None => None,
    };
    let mut i: usize = 0;
    proof {
        assert(all.take(0) =~= Seq::empty());
        assert(start + remarks_on(all.take(0), held, registry@) =~= start);
    }
    while i < deps.len()
        invariant
            i <= deps.len(),
            all == dependency_views(deps@),
            held == match lock {
                Some(l) => Some(l@),
                None => None,
            },
            remark_views(out@) == start + remarks_on(all.take(i as int), held, registry@),
        decreases deps.len() - i,
    {
        proof {
            let next = all.take(i + 1);
            assert(next.drop_last() =~= all.take(i as int));
            assert(next.last() == deps@[i as int]@);
        }
        let ghost before = remark_views(out@);
        match find_update(&deps[i], lock, registry) {
            Some(version) => {
                let d = update_diagnostic(&deps[i], version.as_str());
                let ghost shown = d@;
                out.push(d);
                proof {
                    assert(remark_views(out@) =~= before.push(shown));
                    assert(before.push(shown) =~= start + remarks_on(
                        all.take(i as int),
                        held,
                        registry@,
                    ).push(shown));
                }
            },
            None => {},
        }
        i += 1;
    }
    proof {
        assert(all.take(all.len() as int) =~= all);
    }
}

/// The diagnostics on a manifest are those on its `require` block followed
/// by those on its `require-dev` block.
pub proof fn lemma_remarks_concat(
    a: Seq<Dependency>,
    b: Seq<Dependency>,
    lock: Option<Map<Seq<char>, Seq<char>>>,
    registry: Map<Seq<char>, RegistryPackage>,
)
    ensures
        remarks_on(a + b, lock, registry) == remarks_on(a, lock, registry) + remarks_on(
            b,
            lock,
            registry,
        ),
    decreases b.len(),
{
    if b.len() == 0 {
        assert(a + b =~= a);
        assert(remarks_on(a, lock, registry) + remarks_on(b, lock, registry) =~= remarks_on(
            a,
            lock,
            registry,
        ));
    } else {
        lemma_remarks_concat(a, b.drop_last(), lock, registry);
        assert((a + b).drop_last() =~= a + b.drop_last());
        assert((a + b).last() == b.last());
        let before = remarks_on(a, lock, registry) + remarks_on(b.drop_last(), lock, registry);
        match update_for(b.last(), lock, registry) {
            Some(version) => {
                assert(before.push(remark_on(b.last(), version)) =~= remarks_on(a, lock, registry)
                    + remarks_on(b.drop_last(), lock, registry).push(remark_on(b.last(), version)));
            },
            None => {},
        }
    }
}

/// The diagnostics on a manifest, given the registry data.
pub fn diagnostics(file: &ComposerFile, registry: &Registry) -> (r: Vec<Diagnostic>)
    ensures
        remark_views(r@) == diagnostics_of(file@, registry@),
{
    let mut out: Vec<Diagnostic> = Vec::new();
    proof {
        assert(remark_views(out@) =~= Seq::empty());
    }
    add_diagnostics(&mut out, &file.dependencies, &file.lock, registry);
    add_diagnostics(&mut out, &file.dev_dependencies, &file.lock, registry);
    proof {
        lemma_remarks_concat(
            file@.dependencies,
            file@.dev_dependencies,
            file@.lock,
            registry@,
        );
        assert(Seq::<Remark>::empty() + remarks_on(file@.dependencies, file@.lock, registry@)
            =~= remarks_on(file@.dependencies, file@.lock, registry@));
    }
    out
}

/// Every declared dependency of a manifest: those of `require`, then those
/// of `require-dev`. These are the packages to ask the registry for.
pub fn fetch_list(file: &ComposerFile) -> (r: Vec<ComposerDependency>)
    ensures
        dependency_views(r@) == declared(file@),
{
    let mut out: Vec<ComposerDependency> = Vec::new();
    let ghost first = dependency_views(file.dependencies@);
    let ghost second = dependency_views(file.dev_dependencies@);
    let mut i: usize = 0;
    while i < file.dependencies.len()
        invariant
            i <= file.dependencies.len(),
            first == dependency_views(file.dependencies@),
            dependency_views(out@) == first.take(i as int),
        decreases file.dependencies.len() - i,
    {
        let dep = &file.dependencies[i];
        let ghost before = dependency_views(out@);
        out.push(
            ComposerDependency { name: dep.name.clone(), version: dep.version.clone(), line: dep.line },
        );
        proof {
            assert(dependency_views(out@) =~= before.push(dep@));
            assert(first[i as int] == dep@);
            assert(before.push(dep@) =~= first.take(i + 1));
        }
        i += 1;
    }
    let mut j: usize = 0;
    proof {
        assert(first.take(first.len() as int) =~= first);
        assert(first + second.take(0) =~= first);
    }
    while j < file.dev_dependencies.len()
        invariant
            j <= file.dev_dependencies.len(),
            second == dependency_views(file.dev_dependencies@),
            dependency_views(out@) == first + second.take(j as int),
        decreases file.dev_dependencies.len() - j,
    {
        let dep = &file.dev_dependencies[j];
        let ghost before = dependency_views(out@);
        out.push(
            ComposerDependency { name: dep.name.clone(), version: dep.version.clone(), line: dep.line },
        );
        proof {
            assert(dependency_views(out@) =~= before.push(dep@));
            assert(second[j as int] == dep@);
            assert(before.push(dep@) =~= first + second.take(j + 1));
        }
        j += 1;
    }
    proof {
        assert(second.take(second.len() as int) =~= second);
    }
    out
}

/// The release's version, normalized, is the installed one.
pub open spec fn describes(release: Release, installed: Seq<char>) -> bool {
    match release.version {
        Some(version) => normalized_version(version) == installed,
        None => false,
    }
}

/// Release `i` is the last one whose normalized version is the installed
/// one.
pub open spec fn is_described(releases: Seq<Release>, installed: Seq<char>, i: int) -> bool {
    &&& 0 <= i < releases.len()
    &&& describes(releases[i], installed)
    &&& forall|j: int| i < j < releases.len() ==> !describes(#[trigger] releases[j], installed)
}

/// The index of the release that stands for the installed version: the last
/// one whose normalized version equals it, the first release where there is
/// none.
pub open spec fn described_index(releases: Seq<Release>, installed: Seq<char>) -> int {
    if exists|i: int| is_described(releases, installed, i) {
        choose|i: int| is_described(releases, installed, i)
    } else {
        0
    }
}

/// The index of the release to describe: the one that stands for the
/// installed version, the first one where nothing is installed.
pub open spec fn chosen_index(releases: Seq<Release>, installed: Option<Seq<char>>) -> int {
    match installed {
        Some(version) => described_index(releases, version),
        None => 0,
    }
}

/// The index of the release to describe.
pub fn choose_release(releases: &Vec<PackageVersion>, installed: Option<&str>) -> (r: usize)
    ensures
        r as int == chosen_index(release_views(releases@), optional_str(installed)),
        releases@.len() > 0 ==> r < releases@.len(),
{
    let ghost all = release_views(releases@);
    match installed {
        None => 0,
        Some(version) => {
            let mut i: usize = releases.len();
            while i > 0
                invariant
                    i <= releases.len(),
                    all == release_views(releases@),
                    installed == Some(version),
                    forall|j: int| i <= j < releases.len() ==> !describes(#[trigger] all[j], version@),
                decreases i,
            {
                i -= 1;
                let found = match &releases[i].version {
                    Some(text) => {
                        let normalized = normalize_version(text.as_str());
                        same_text(normalized.as_str(), version)
                    },
                    None => false,
                };
                if found {
                    proof {
                        assert(is_described(all, version@, i as int));
                        let c = choose|c: int| is_described(all, version@, c);
                        if c < i {
                            assert(!describes(all[i as int], version@));
                        } else if i < c {
                            assert(!describes(all[c], version@));
                        }
                        assert(c == i);
                    }
                    return i;
                }
            }
            proof {
                assert forall|c: int| !is_described(all, version@, c) by {
                    if 0 <= c < all.len() {
                        assert(!describes(all[c], version@));
                    }
                }
            }
            0
        },
    }
}

/// The description to show: that of the selected release, followed by an
/// empty line; that of the first release where the selected one has none.
pub open spec fn description_part(selected: Release, first: Release) -> Seq<Seq<char>> {
    match selected.description {
        Some(text) => seq![text, Seq::empty()],
        None => match first.description {
            Some(text) => seq![text],
            None => Seq::empty(),
        },
    }
}

/// The homepage to show: that of the selected release, announced and
/// followed by an empty line; that of the first release where the selected
/// one has none.
pub open spec fn homepage_part(selected: Release, first: Release) -> Seq<Seq<char>> {
    match selected.homepage {
        Some(page) => seq!["Homepage: "@ + page, Seq::empty()],
        None => match first.homepage {
            Some(page) => seq![page],
            None => Seq::empty(),
        },
    }
}

/// The hover text for the selected release of a package whose first release
/// is `first`.
pub open spec fn hover_text(selected: Release, first: Release) -> Seq<Seq<char>> {
    description_part(selected, first) + homepage_part(selected, first)
}

/// The address to go to for the selected release: its own, or that of the
/// first release of the package.
pub open spec fn definition_of(selected: Release, first: Release) -> Option<Seq<char>> {
    match selected.packagist_url {
        Some(url) => Some(url),
        None => first.packagist_url,
    }
}

/// The hover text for the selected release of a package whose first release
/// is `first`.
pub fn hover_contents(selected: &PackageVersion, first: &PackageVersion) -> (r: Vec<String>)
    ensures
        texts(r@) == hover_text(selected@, first@),
{
    let mut out: Vec<String> = Vec::new();
    match &selected.description {
        Some(text) => {
            out.push(text.clone());
            out.push(String::new());
        },
        None => match &first.description {
            Some(text) => {
                out.push(text.clone());
            },
            None => {},
        },
    }
    proof {
        assert(texts(out@) =~= description_part(selected@, first@));
    }
    let ghost before = texts(out@);
    match &selected.homepage {
        Some(page) => {
            let mut line = String::from_str("Homepage: ");
            line.append(page.as_str());
            out.push(line);
            out.push(String::new());
        },
        None => match &first.homepage {
            Some(page) => {
                out.push(page.clone());
            },
            None => {},
        },
    }
    proof {
        assert(texts(out@) =~= before + homepage_part(selected@, first@));
    }
    out
}

/// The address to go to for the selected release.
pub fn definition_url(selected: &PackageVersion, first: &PackageVersion) -> (r: Option<String>)
    ensures
        optional(r) == definition_of(selected@, first@),
{
    match &selected.packagist_url {
        Some(url) => Some(url.clone()),
        None => match &first.packagist_url {
            Some(url) => Some(url.clone()),
            None => None,
        },
    }
}

/// Why a query on a line has no answer.
#[derive(Debug, Clone, PartialEq, Eq)]
pub enum QueryError {
    /// No manifest has been saved yet.
    NoDocument,
    /// No dependency is known on the line.
    UnknownLine(u32),
    /// The registry has no data for the dependency of this name.
    NoRegistryData(String),
    /// The registry's data for the dependency of this name holds nothing
    /// that can be shown.
    NoUsableRelease(String),
}

/// What a `QueryError` holds.
pub enum Failure {
    NoDocument,
    UnknownLine(u32),
    NoRegistryData(Seq<char>),
    NoUsableRelease(Seq<char>),
}

impl View for QueryError {
    type V = Failure;

    open spec fn view(&self) -> Failure {
        match self {
            QueryError::NoDocument => Failure::NoDocument,
            QueryError::UnknownLine(line) => Failure::UnknownLine(*line),
            QueryError::NoRegistryData(name) => Failure::NoRegistryData(name@),
            QueryError::NoUsableRelease(name) => Failure::NoUsableRelease(name@),
        }
    }
}

/// The text shown for the dependency on a line.
#[derive(Debug, Clone, PartialEq, Eq)]
pub struct Hover {
    pub line: u32,
    pub contents: Vec<String>,
}

/// What the orchestrator holds after a save: the manifest and the registry
/// data fetched for it.
pub struct Snapshot {
    pub manifest: Manifest,
    pub registry: Map<Seq<char>, RegistryPackage>,
}

/// The name of the dependency on `line`.
pub open spec fn name_at(state: Option<Snapshot>, line: u32) -> Result<Seq<char>, Failure> {
    match state {
        None => Err(Failure::NoDocument),
        Some(snapshot) => if snapshot.manifest.index.contains_key(line) {
            Ok(snapshot.manifest.index[line])
        } else {
            Err(Failure::UnknownLine(line))
        },
    }
}

/// The release of `package` to describe, and its first release: the one
/// that stands for the installed version, else the first; `None` where the
/// package has no release.
pub open spec fn release_for(package: RegistryPackage, installed: Option<Seq<char>>) -> Option<
    (Release, Release),
> {
    if package.versions.len() == 0 {
        None
    } else {
        Some((package.versions[chosen_index(package.versions, installed)], package.versions[0]))
    }
}

/// The package that the registry's answer to the request for `name`
/// describes, where there is an answer.
pub open spec fn answered(name: Seq<char>, body: Option<Seq<char>>) -> Option<RegistryPackage> {
    match body {
        Some(text) => package_of(name, text),
        None => None,
    }
}

/// The release to describe for the dependency `name`, given the lock data
/// and the registry's answer to a request for the name (`None`: the request
/// failed).
pub open spec fn described(
    lock: Option<Map<Seq<char>, Seq<char>>>,
    name: Seq<char>,
    body: Option<Seq<char>>,
) -> Result<(Release, Release), Failure> {
    match answered(name, body) {
        None => Err(Failure::NoRegistryData(name)),
        Some(package) => match release_for(package, installed_for(lock, name)) {
            None => Err(Failure::NoUsableRelease(name)),
            Some(pair) => Ok(pair),
        },
    }
}

/// The hover text for the dependency on `line`, given the registry's
/// answer to a request for its name.
pub open spec fn hover_of(state: Option<Snapshot>, line: u32, body: Option<Seq<char>>) -> Result<
    Seq<Seq<char>>,
    Failure,
> {
    match name_at(state, line) {
        Err(failure) => Err(failure),
        Ok(name) => match described(state.unwrap().manifest.lock, name, body) {
            Err(failure) => Err(failure),
            Ok((selected, first)) => if hover_text(selected, first).len() == 0 {
                Err(Failure::NoUsableRelease(name))
            } else {
                Ok(hover_text(selected, first))
            },
        },
    }
}

/// The address to go to for the dependency on `line`, given the registry's
/// answer to a request for its name.
pub open spec fn address_of(state: Option<Snapshot>, line: u32, body: Option<Seq<char>>) -> Result<
    Seq<char>,
    Failure,
> {
    match name_at(state, line) {
        Err(failure) => Err(failure),
        Ok(name) => match described(state.unwrap().manifest.lock, name, body) {
            Err(failure) => Err(failure),
            Ok((selected, first)) => match definition_of(selected, first) {
                Some(url) => Ok(url),
                None => Err(Failure::NoUsableRelease(name)),
            },
        },
    }
}

/// A command that the editor can offer on a line.
#[derive(Debug, Clone, PartialEq, Eq)]
pub struct Command {
    pub title: String,
    pub command: String,
    pub arguments: Vec<String>,
}

/// What a `Command` holds.
pub struct Offer {
    pub title: Seq<char>,
    pub command: Seq<char>,
    pub arguments: Seq<Seq<char>>,
}

impl View for Command {
    type V = Offer;

    open spec fn view(&self) -> Offer {
        Offer { title: self.title@, command: self.command@, arguments: texts(self.arguments@) }
    }
}

/// What a vector of commands holds.
pub open spec fn offer_views(v: Seq<Command>) -> Seq<Offer> {
    Seq::new(v.len(), |i: int| v[i]@)
}

/// The command that installs every package.
pub open spec fn install_offer() -> Offer {
    Offer { title: "Install all packages"@, command: "install"@, arguments: Seq::empty() }
}

/// The command that updates the package `name`.
pub open spec fn update_offer(name: Seq<char>) -> Offer {
    Offer { title: "Update package"@, command: "update"@, arguments: seq![name] }
}

/// The commands offered on the lines from `start` to `end`. None are
/// offered (`None`) before a manifest has been saved, on more than one
/// line, or on a line without a dependency. Without a lock file the offer is
/// to install everything, with one it is to update the dependency.
pub open spec fn offers_of(state: Option<Snapshot>, start: u32, end: u32) -> Option<Seq<Offer>> {
    if start != end {
        None
    } else {
        match name_at(state, start) {
            Err(_) => None,
            Ok(name) => if state.unwrap().manifest.lock.is_none() {
                Some(seq![install_offer()])
            } else {
                Some(seq![update_offer(name)])
            },
        }
    }
}

/// What to do on a command of the editor.
#[derive(Debug, Clone, PartialEq, Eq)]
pub enum CommandPlan {
    /// Nothing is to be done.
    Nothing,
    /// The command is not known.
    MethodNotFound,
    /// A program is to be run.
    Run(Invocation),
}

/// A program to run, and what to say when it has done its work.
#[derive(Debug, Clone, PartialEq, Eq)]
pub struct Invocation {
    pub program: String,
    pub arguments: Vec<String>,
    pub done: String,
}

/// What an `Invocation` holds.
pub struct Call {
    pub program: Seq<char>,
    pub arguments: Seq<Seq<char>>,
    pub done: Seq<char>,
}

/// What a `CommandPlan` holds.
pub enum Plan {
    Nothing,
    MethodNotFound,
    Run(Call),
}

impl View for Invocation {
    type V = Call;

    open spec fn view(&self) -> Call {
        Call { program: self.program@, arguments: texts(self.arguments@), done: self.done@ }
    }
}

impl View for CommandPlan {
    type V = Plan;

    open spec fn view(&self) -> Plan {
        match self {
            CommandPlan::Nothing => Plan::Nothing,
            CommandPlan::MethodNotFound => Plan::MethodNotFound,
            CommandPlan::Run(invocation) => Plan::Run(invocation@),
        }
    }
}

/// `text` without `prefix` at its start, where it starts with it.
pub open spec fn without_prefix(text: Seq<char>, prefix: Seq<char>) -> Seq<char> {
    if starts_with(text, prefix) {
        text.subrange(prefix.len() as int, text.len() as int)
    } else {
        text
    }
}

/// `text` without `suffix` at its end, where it ends with it.
pub open spec fn without_suffix(text: Seq<char>, suffix: Seq<char>) -> Seq<char> {
    if ends_with(text, suffix) {
        text.subrange(0, text.len() - suffix.len())
    } else {
        text
    }
}

/// The directory in which the package manager is to work: the manifest's
/// path without the `file://` that starts it and the `/composer.json` that
/// ends it.
pub open spec fn working_directory_of(path: Seq<char>) -> Seq<char> {
    without_prefix(without_suffix(path, "/composer.json"@), "file://"@)
}

/// The call that updates `dependency` in the project of the manifest at
/// `path`.
pub open spec fn update_call(path: Seq<char>, dependency: Seq<char>) -> Call {
    Call {
        program: "composer"@,
        arguments: seq![
            "--working-dir="@ + working_directory_of(path),
            "update"@,
            dependency,
        ],
        done: "Composer package "@ + dependency + " was updated."@,
    }
}

/// The call that installs the packages of the project of the manifest at
/// `path`.
pub open spec fn install_call(path: Seq<char>) -> Call {
    Call {
        program: "composer"@,
        arguments: seq!["--working-dir="@ + working_directory_of(path), "install"@],
        done: "Composer packages were installed."@,
    }
}

/// What to do on `command` with the dependency that it names, if it names
/// one. Before a manifest has been saved nothing is done.
pub open spec fn plan_of(state: Option<Snapshot>, command: Seq<char>, dependency: Option<Seq<char>>) -> Plan {
    match state {
        None => Plan::Nothing,
        Some(snapshot) => if command == "update"@ {
            match dependency {
                Some(name) => Plan::Run(update_call(snapshot.manifest.path, name)),
                None => Plan::Nothing,
            }
        } else if command == "install"@ {
            Plan::Run(install_call(snapshot.manifest.path))
        } else {
            Plan::MethodNotFound
        },
    }
}

/// How a run of the package manager ended, as the editor is told.
#[derive(Debug, Clone, PartialEq, Eq)]
pub struct Outcome {
    /// What to show to the user, if anything.
    pub message: Option<String>,
    /// Whether the command counts as failed.
    pub failed: bool,
}

/// The error code that a failed command is reported with.
pub const COMMAND_FAILED: i64 = 400;

/// What the package manager writes when it cannot resolve the requirements.
pub const UNRESOLVED: &'static str =
    "Your requirements could not be resolved to an installable set of packages";

/// What to tell the editor after a run that said `done` on success: whether
/// it `succeeded`, and what it wrote to its error stream (`None`: nothing
/// readable).
pub open spec fn outcome_of(done: Seq<char>, succeeded: bool, errors: Option<Seq<char>>) -> (
    Option<Seq<char>>,
    bool,
) {
    if !succeeded {
        (Some("Composer command failed."@), true)
    } else {
        match errors {
            None => (None, true),
            Some(text) => if contains(text, UNRESOLVED@) {
                (Some("Composer dependencies could not be resolved."@), false)
            } else {
                (Some(done), false)
            },
        }
    }
}

/// What to tell the editor after a run of `invocation`.
pub fn command_outcome(invocation: &Invocation, succeeded: bool, errors: Option<&str>) -> (r: Outcome)
    ensures
        (optional(r.message), r.failed) == outcome_of(invocation.done@, succeeded, optional_str(errors)),
{
    if !succeeded {
        return Outcome { message: Some(String::from_str("Composer command failed.")), failed: true };
    }
    match errors {
        None => Outcome { message: None, failed: true },
        Some(text) => {
            let written = chars_of(text);
            let marker = chars_of(UNRESOLVED);
            if contains_chars(written.as_slice(), marker.as_slice()) {
                Outcome {
                    message: Some(String::from_str("Composer dependencies could not be resolved.")),
                    failed: false,
                }
            } else {
                Outcome { message: Some(invocation.done.clone()), failed: false }
            }
        },
    }
}

/// The directory in which the package manager is to work.
pub fn working_directory(path: &str) -> (r: String)
    ensures
        r@ == working_directory_of(path@),
{
    let chars = chars_of(path);
    let suffix = chars_of("/composer.json");
    let prefix = chars_of("file://");
    let end = if has_suffix(chars.as_slice(), suffix.as_slice()) {
        chars.len() - suffix.len()
    } else {
        chars.len()
    };
    let stem = &chars.as_slice()[0..end];
    proof {
        assert(stem@ =~= without_suffix(path@, "/composer.json"@));
    }
    if has_prefix(stem, prefix.as_slice()) {
        let rest = &stem[prefix.len()..stem.len()];
        string_of(rest)
    } else {
        string_of(stem)
    }
}

/// The call that updates `dependency` in the project of the manifest at
/// `path`.
pub fn plan_update(path: &str, dependency: &str) -> (r: Invocation)
    ensures
        r@ == update_call(path@, dependency@),
{
    let mut directory = String::from_str("--working-dir=");
    directory.append(working_directory(path).as_str());
    let mut arguments: Vec<String> = Vec::new();
    arguments.push(directory);
    arguments.push(String::from_str("update"));
    arguments.push(String::from_str(dependency));
    let mut done = String::from_str("Composer package ");
    done.append(dependency);
    done.append(" was updated.");
    let r = Invocation { program: String::from_str("composer"), arguments, done };
    proof {
        assert(r@.arguments =~= update_call(path@, dependency@).arguments);
    }
    r
}

/// The call that installs the packages of the project of the manifest at
/// `path`.
pub fn plan_install(path: &str) -> (r: Invocation)
    ensures
        r@ == install_call(path@),
{
    let mut directory = String::from_str("--working-dir=");
    directory.append(working_directory(path).as_str());
    let mut arguments: Vec<String> = Vec::new();
    arguments.push(directory);
    arguments.push(String::from_str("install"));
    let r = Invocation {
        program: String::from_str("composer"),
        arguments,
        done: String::from_str("Composer packages were installed."),
    };
    proof {
        assert(r@.arguments =~= install_call(path@).arguments);
    }
    r
}

/// The state of the orchestrator: nothing before the first save, then the
/// manifest that was saved last and the registry data fetched for it.
pub struct Backend {
    saved: Option<(ComposerFile, Registry)>,
}

impl View for Backend {
    type V = Option<Snapshot>;

    closed spec fn view(&self) -> Option<Snapshot> {
        match self.saved {
            Some((file, registry)) => Some(Snapshot { manifest: file@, registry: registry@ }),
            None => None,
        }
    }
}

/// The view of the result of a hover query.
pub open spec fn hover_view(r: Result<Hover, QueryError>) -> Result<Seq<Seq<char>>, Failure> {
    match r {
        Ok(hover) => Ok(texts(hover.contents@)),
        Err(error) => Err(error@),
    }
}

/// The view of a result that holds a string.
pub open spec fn text_view(r: Result<String, QueryError>) -> Result<Seq<char>, Failure> {
    match r {
        Ok(text) => Ok(text@),
        Err(error) => Err(error@),
    }
}

/// The views of optional commands.
pub open spec fn optional_offers(r: Option<Vec<Command>>) -> Option<Seq<Offer>> {
    match r {
        Some(commands) => Some(offer_views(commands@)),
        None => None,
    }
}

impl Backend {
    /// The state before the first save.
    pub fn new() -> (backend: Backend)
        ensures
            backend@.is_none(),
    {
        Backend { saved: None }
    }

    /// The manifest that was saved last.
    pub fn composer_file(&self) -> (r: Option<&ComposerFile>)
        ensures
            match r {
                Some(file) => self@.is_some() && file@ == self@.unwrap().manifest,
                None => self@.is_none(),
            },
    {
        match &self.saved {
            Some((file, _)) => Some(file),
            None => None,
        }
    }

    /// Takes in a saved manifest and the registry's answers to the requests
    /// for its declared dependencies (`fetch_list`), and hands out the
    /// diagnostics on it. What was held before is replaced as a whole.
    pub fn on_save(&mut self, file: ComposerFile, bodies: Vec<Option<String>>) -> (r: Vec<Diagnostic>)
        ensures
            final(self)@ == Some(
                Snapshot {
                    manifest: file@,
                    registry: registry_of(declared(file@), optional_rows(bodies@)),
                },
            ),
            remark_views(r@) == diagnostics_of(
                file@,
                registry_of(declared(file@), optional_rows(bodies@)),
            ),
    {
        let registry = get_packages_info(fetch_list(&file), bodies);
        let found = diagnostics(&file, &registry);
        self.saved = Some((file, registry));
        found
    }

    /// The name of the dependency on `line`: the package to ask the registry
    /// for before a hover or a definition query on that line.
    pub fn dependency_at(&self, line: u32) -> (r: Result<String, QueryError>)
        ensures
            text_view(r) == name_at(self@, line),
    {
        match &self.saved {
            None => Err(QueryError::NoDocument),
            Some((file, _)) => match file.dependencies_by_line.get(&line) {
                Some(name) => Ok(name.clone()),
                None => Err(QueryError::UnknownLine(line)),
            },
        }
    }

    /// The hover text for the dependency on `line`, given the registry's
    /// answer to a request for its name (`None`: the request failed).
    pub fn on_hover(&self, line: u32, body: Option<&str>) -> (r: Result<Hover, QueryError>)
        ensures
            hover_view(r) == hover_of(self@, line, optional_str(body)),
            r matches Ok(hover) ==> hover.line == line,
    {
        let name = match self.dependency_at(line) {
            Ok(name) => name,
            Err(error) => {
                return Err(error);
            },
        };
        let package = match self.answer(name.as_str(), body) {
            Ok(package) => package,
            Err(error) => {
                return Err(error);
            },
        };
        let file = match &self.saved {
            Some((file, _)) => file,
            None => {
                return Err(QueryError::NoDocument);
            },
        };
        let installed = installed_version(&file.lock, name.as_str());
        let chosen = match installed {
            Some(version) => choose_release(&package.versions, Some(version.as_str())),
            None => choose_release(&package.versions, None),
        };
        let contents = hover_contents(&package.versions[chosen], &package.versions[0]);
        if contents.len() == 0 {
            Err(QueryError::NoUsableRelease(name))
        } else {
            Ok(Hover { line, contents })
        }
    }

    /// The address to go to for the dependency on `line`, given the
    /// registry's answer to a request for its name (`None`: the request
    /// failed).
    pub fn goto_definition(&self, line: u32, body: Option<&str>) -> (r: Result<String, QueryError>)
        ensures
            text_view(r) == address_of(self@, line, optional_str(body)),
    {
        let name = match self.dependency_at(line) {
            Ok(name) => name,
            Err(error) => {
                return Err(error);
            },
        };
        let package = match self.answer(name.as_str(), body) {
            Ok(package) => package,
            Err(error) => {
                return Err(error);
            },
        };
        let file = match &self.saved {
            Some((file, _)) => file,
            None => {
                return Err(QueryError::NoDocument);
            },
        };
        let installed = installed_version(&file.lock, name.as_str());
        let chosen = match installed {
            Some(version) => choose_release(&package.versions, Some(version.as_str())),
            None => choose_release(&package.versions, None),
        };
        match definition_url(&package.versions[chosen], &package.versions[0]) {
            Some(url) => Ok(url),
            None => Err(QueryError::NoUsableRelease(name)),
        }
    }

    /// The package that the registry's answer to the request for `name`
    /// describes, if it has a release.
    fn answer(&self, name: &str, body: Option<&str>) -> (r: Result<Package, QueryError>)
        ensures
            match r {
                Ok(package) => answered(name@, optional_str(body)) == Some(package@)
                    && package.versions@.len() > 0,
                Err(error) => match answered(name@, optional_str(body)) {
                    None => error@ == Failure::NoRegistryData(name@),
                    Some(package) => package.versions.len() == 0 && error@
                        == Failure::NoUsableRelease(name@),
                },
            },
    {
        let package = match body {
            Some(text) => get_package_info(String::from_str(name), text),
            None => None,
        };
        match package {
            None => Err(QueryError::NoRegistryData(String::from_str(name))),
            Some(package) => if package.versions.len() == 0 {
                Err(QueryError::NoUsableRelease(String::from_str(name)))
            } else {
                Ok(package)
            },
        }
    }

    /// The commands to offer on the lines from `start_line` to `end_line`;
    /// `None` where the request is to be refused.
    pub fn on_code_action(&self, start_line: u32, end_line: u32) -> (r: Option<Vec<Command>>)
        ensures
            optional_offers(r) == offers_of(self@, start_line, end_line),
    {
        if start_line != end_line {
            return None;
        }
        let name = match self.dependency_at(start_line) {
            Ok(name) => name,
            Err(_) => {
                return None;
            },
        };
        let file = match &self.saved {
            Some((file, _)) => file,
            None => {
                return None;
            },
        };
        let mut commands: Vec<Command> = Vec::new();
        if file.lock.is_none() {
            let command = Command {
                title: String::from_str("Install all packages"),
                command: String::from_str("install"),
                arguments: Vec::new(),
            };
            proof {
                assert(command@.arguments =~= install_offer().arguments);
            }
            commands.push(command);
            proof {
                assert(offer_views(commands@) =~= seq![install_offer()]);
            }
        } else {
            let mut arguments: Vec<String> = Vec::new();
            arguments.push(name);
            let command = Command {
                title: String::from_str("Update package"),
                command: String::from_str("update"),
                arguments,
            };
            proof {
                assert(command@.arguments =~= update_offer(name@).arguments);
            }
            commands.push(command);
            proof {
                assert(offer_views(commands@) =~= seq![update_offer(name@)]);
            }
        }
        Some(commands)
    }

    /// What to do on `command` of the editor, with the dependency that its
    /// first argument names, if it names one.
    pub fn on_execute_command(&self, command: &str, dependency: Option<&str>) -> (r: CommandPlan)
        ensures
            r@ == plan_of(self@, command@, optional_str(dependency)),
    {
        let file = match &self.saved {
            Some((file, _)) => file,
            None => {
                return CommandPlan::Nothing;
            },
        };
        if same_text(command, "update") {
            match dependency {
                Some(name) => CommandPlan::Run(plan_update(file.path.as_str(), name)),
                None => CommandPlan::Nothing,
            }
        } else if same_text(command, "install") {
            CommandPlan::Run(plan_install(file.path.as_str()))
        } else {
            CommandPlan::MethodNotFound
        }
    }
}

/// Whether a manifest parses does not depend on its lock file, and without
/// one nothing counts as installed: every dependency is resolved as not
/// installed.
pub proof fn lemma_missing_lock(
    path: Seq<char>,
    text: Seq<char>,
    lock_text: Seq<char>,
    dep: Dependency,
    registry: Map<Seq<char>, RegistryPackage>,
)
    ensures
        manifest_of(path, text, None).is_some() == manifest_of(path, text, Some(lock_text)).is_some(),
        manifest_of(path, text, None) matches Some(manifest) ==> {
            &&& manifest.lock.is_none()
            &&& installed_for(manifest.lock, dep.name).is_none()
            &&& update_for(dep, manifest.lock, registry) == if dep.name.len() == 0
                || !registry.contains_key(dep.name) {
                None
            } else {
                update_of(registry[dep.name].versions, dep.version, None)
            }
        },
{
}

/// What the registry holds under a name does not depend on the answer to a
/// request for another name.
pub proof fn lemma_fetched_other(
    packages: Seq<Dependency>,
    bodies: Seq<Option<Seq<char>>>,
    k: int,
    name: Seq<char>,
    n: int,
)
    requires
        0 <= k < bodies.len(),
        k < packages.len(),
        0 <= n <= packages.len(),
        n <= bodies.len(),
        packages[k].name != name,
    ensures
        fetched(packages, bodies.update(k, None), n).contains_key(name) == fetched(
            packages,
            bodies,
            n,
        ).contains_key(name),
        fetched(packages, bodies, n).contains_key(name) ==> fetched(
            packages,
            bodies.update(k, None),
            n,
        )[name] == fetched(packages, bodies, n)[name],
    decreases n,
{
    if n > 0 {
        lemma_fetched_other(packages, bodies, k, name, n - 1);
        if n - 1 != k {
            assert(bodies.update(k, None)[n - 1] == bodies[n - 1]);
        }
    }
}

/// The registry holds nothing under a name for which no request was
/// answered with data.
pub proof fn lemma_fetched_none(
    packages: Seq<Dependency>,
    bodies: Seq<Option<Seq<char>>>,
    name: Seq<char>,
    n: int,
)
    requires
        0 <= n <= packages.len(),
        n <= bodies.len(),
        forall|i: int|
            0 <= i < n && packages[i].name == name ==> answered(name, #[trigger] bodies[i]).is_none(),
    ensures
        !fetched(packages, bodies, n).contains_key(name),
    decreases n,
{
    if n > 0 {
        lemma_fetched_none(packages, bodies, name, n - 1);
        assert(packages[n - 1].name == name ==> answered(name, bodies[n - 1]).is_none());
    }
}

/// Let the request for dependency `k` fail, whatever the registry would
/// have answered. Then a dependency of another name is
/// resolved as if the request had not failed; and dependency `k` itself has
/// no update, provided that no other request for its name was answered with
/// data.
pub proof fn lemma_partial_failure(
    packages: Seq<Dependency>,
    bodies: Seq<Option<Seq<char>>>,
    lock: Option<Map<Seq<char>, Seq<char>>>,
    k: int,
    dep: Dependency,
)
    requires
        packages.len() == bodies.len(),
        0 <= k < packages.len(),
    ensures
        dep.name != packages[k].name ==> update_for(
            dep,
            lock,
            registry_of(packages, bodies.update(k, None)),
        ) == update_for(dep, lock, registry_of(packages, bodies)),
        (forall|i: int|
            0 <= i < packages.len() && i != k && packages[i].name == packages[k].name ==> answered(
                packages[k].name,
                #[trigger] bodies[i],
            ).is_none()) ==> update_for(
            packages[k],
            lock,
            registry_of(packages, bodies.update(k, None)),
        ).is_none(),
{
    let failed = bodies.update(k, None);
    let n = packages.len() as int;
    if dep.name != packages[k].name {
        lemma_fetched_other(packages, bodies, k, dep.name, n);
    }
    if forall|i: int|
        0 <= i < packages.len() && i != k && packages[i].name == packages[k].name ==> answered(
            packages[k].name,
            #[trigger] bodies[i],
        ).is_none() {
        assert forall|i: int| 0 <= i < n && packages[i].name == packages[k].name implies answered(
            packages[k].name,
            #[trigger] failed[i],
        ).is_none() by {
            if i != k {
                assert(failed[i] == bodies[i]);
            }
        }
        lemma_fetched_none(packages, failed, packages[k].name, n);
    }
}

/// A character that is no part of a name being typed: a space, a double
/// quote or a line feed.
pub open spec fn is_padding(c: char) -> bool {
    c == ' ' || c == '"' || c == '\n'
}

/// `s` without its padding.
pub open spec fn without_padding(s: Seq<char>) -> Seq<char>
    decreases s.len(),
{
    if s.len() == 0 {
        s
    } else if is_padding(s.last()) {
        without_padding(s.drop_last())
    } else {
        without_padding(s.drop_last()).push(s.last())
    }
}

/// Index `q` holds the last double quote of the line.
pub open spec fn is_last_quote(line: Seq<char>, q: int) -> bool {
    &&& 0 <= q < line.len()
    &&& line[q] == '"'
    &&& forall|k: int| q < k < line.len() ==> line[k] != '"'
}

/// What is typed after the last double quote at `q`, without padding, if it
/// is two characters or more.
pub open spec fn typed_after(line: Seq<char>, q: int) -> Option<Seq<char>> {
    let typed = without_padding(line.subrange(q, line.len() as int));
    if typed.len() >= 2 {
        Some(typed)
    } else {
        None
    }
}

/// The beginning of a package name that is being typed on the line, to be
/// completed: what follows the last double quote. `None` where the line has
/// no double quote, or less than two characters follow it.
pub open spec fn prefix_of(line: Seq<char>) -> Option<Seq<char>> {
    if exists|q: int| is_last_quote(line, q) {
        typed_after(line, choose|q: int| is_last_quote(line, q))
    } else {
        None
    }
}

/// The names that begin with `prefix`, in order.
pub open spec fn beginning_with(names: Seq<Seq<char>>, prefix: Seq<char>) -> Seq<Seq<char>>
    decreases names.len(),
{
    if names.len() == 0 {
        names
    } else if starts_with(names.last(), prefix) {
        beginning_with(names.drop_last(), prefix).push(names.last())
    } else {
        beginning_with(names.drop_last(), prefix)
    }
}

/// The beginning of a package name that is being typed on the line.
pub fn completion_prefix(line_text: &str) -> (r: Option<String>)
    ensures
        optional(r) == prefix_of(line_text@),
{
    let line = chars_of(line_text);
    let mut q: usize = line.len();
    while q > 0
        invariant
            q <= line.len(),
            line@ == line_text@,
            forall|k: int| q <= k < line.len() ==> line@[k] != '"',
        decreases q,
    {
        q -= 1;
        if line[q] == '"' {
            proof {
                assert(is_last_quote(line@, q as int));
                let c = choose|c: int| is_last_quote(line@, c);
                if c < q {
                    assert(line@[q as int] != '"');
                } else if q < c {
                    assert(line@[c] != '"');
                }
                assert(c == q);
            }
            let rest = &line.as_slice()[q..line.len()];
            let mut typed: Vec<char> = Vec::new();
            let mut i: usize = 0;
            proof {
                assert(rest@.take(0) =~= Seq::<char>::empty());
            }
            while i < rest.len()
                invariant
                    i <= rest.len(),
                    typed@ == without_padding(rest@.take(i as int)),
                decreases rest.len() - i,
            {
                let c = rest[i];
                proof {
                    let next = rest@.take(i + 1);
                    assert(next.drop_last() =~= rest@.take(i as int));
                    assert(next.last() == c);
                }
                if !(c == ' ' || c == '"' || c == '\n') {
                    typed.push(c);
                }
                i += 1;
            }
            proof {
                assert(rest@.take(rest@.len() as int) =~= rest@);
            }
            return if typed.len() >= 2 {
                Some(string_of(typed.as_slice()))
            } else {
                None
            };
        }
    }
    proof {
        assert forall|c: int| !is_last_quote(line@, c) by {
            if 0 <= c < line@.len() {
                assert(line@[c] != '"');
            }
        }
    }
    None
}

/// The names that begin with `prefix`, in order.
pub fn completions(names: &Vec<String>, prefix: &str) -> (r: Vec<String>)
    ensures
        texts(r@) == beginning_with(texts(names@), prefix@),
{
    let ghost all = texts(names@);
    let start = chars_of(prefix);
    let mut out: Vec<String> = Vec::new();
    let mut i: usize = 0;
    proof {
        assert(all.take(0) =~= Seq::empty());
        assert(texts(out@) =~= Seq::empty());
    }
    while i < names.len()
        invariant
            i <= names.len(),
            all == texts(names@),
            start@ == prefix@,
            texts(out@) == beginning_with(all.take(i as int), prefix@),
        decreases names.len() - i,
    {
        proof {
            let next = all.take(i + 1);
            assert(next.drop_last() =~= all.take(i as int));
            assert(next.last() == names@[i as int]@);
        }
        let name = chars_of(names[i].as_str());
        if has_prefix(name.as_slice(), start.as_slice()) {
            let ghost before = texts(out@);
            out.push(names[i].clone());
            proof {
                assert(texts(out@) =~= before.push(names@[i as int]@));
            }
        }
        i += 1;
    }
    proof {
        assert(all.take(all.len() as int) =~= all);
    }
    out
}

} // verus!
