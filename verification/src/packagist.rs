//! Registry packages, their releases, and the choice of an update among
//! them.

use vstd::prelude::*;
use crate::composer::{dependency_views, ComposerDependency, Dependency};
use crate::constraint::{admits, parse_version, readable, satisfies, semver_version, Constraint};
use crate::json::{
    array_items, array_of, member_value, object_members, object_of, pairs, string_of, string_value,
    texts, value_of, Member,
};
use crate::text::{remove_char, same_text, without};
use crate::version::{
    lemma_precedes_connected, lemma_precedes_irreflexive, lemma_precedes_transitive, precedes,
    SemVer, Version,
};

verus! {

/// A package of the registry: its name and its releases, in the order in
/// which the registry lists them.
#[derive(Debug, Clone)]
pub struct Package {
    pub name: String,
    pub versions: Vec<PackageVersion>,
}

/// One release of a package.
#[derive(Debug, Clone)]
pub struct PackageVersion {
    pub name: Option<String>,
    pub description: Option<String>,
    pub keywords: Option<Vec<String>>,
    pub homepage: Option<String>,
    pub version: Option<String>,
    pub version_normalized: Option<String>,
    pub license: Option<Vec<String>>,
    pub authors: Option<Vec<PackageAuthorField>>,
    pub packagist_url: Option<String>,
}

/// An author of a release.
#[derive(Default, Debug, Clone, PartialEq)]
pub struct PackageAuthorField {
    pub name: Option<String>,
    pub email: Option<String>,
    pub homepage: Option<String>,
    pub role: Option<String>,
}

/// What a `PackageAuthorField` holds.
pub struct Author {
    pub name: Option<Seq<char>>,
    pub email: Option<Seq<char>>,
    pub homepage: Option<Seq<char>>,
    pub role: Option<Seq<char>>,
}

/// What a `PackageVersion` holds.
pub struct Release {
    pub name: Option<Seq<char>>,
    pub description: Option<Seq<char>>,
    pub keywords: Option<Seq<Seq<char>>>,
    pub homepage: Option<Seq<char>>,
    pub version: Option<Seq<char>>,
    pub version_normalized: Option<Seq<char>>,
    pub license: Option<Seq<Seq<char>>>,
    pub authors: Option<Seq<Author>>,
    pub packagist_url: Option<Seq<char>>,
}

/// What a `Package` holds.
pub struct RegistryPackage {
    pub name: Seq<char>,
    pub versions: Seq<Release>,
}

/// The text of an optional string.
pub open spec fn optional(s: Option<String>) -> Option<Seq<char>> {
    match s {
        Some(s) => Some(s@),
        None => None,
    }
}

/// The texts of an optional vector of strings.
pub open spec fn optional_texts(v: Option<Vec<String>>) -> Option<Seq<Seq<char>>> {
    match v {
        Some(v) => Some(texts(v@)),
        None => None,
    }
}

impl View for PackageAuthorField {
    type V = Author;

    open spec fn view(&self) -> Author {
        Author {
            name: optional(self.name),
            email: optional(self.email),
            homepage: optional(self.homepage),
            role: optional(self.role),
        }
    }
}

/// What a vector of authors holds.
pub open spec fn author_views(v: Seq<PackageAuthorField>) -> Seq<Author> {
    Seq::new(v.len(), |i: int| v[i]@)
}

impl View for PackageVersion {
    type V = Release;

    open spec fn view(&self) -> Release {
        Release {
            name: optional(self.name),
            description: optional(self.description),
            keywords: optional_texts(self.keywords),
            homepage: optional(self.homepage),
            version: optional(self.version),
            version_normalized: optional(self.version_normalized),
            license: optional_texts(self.license),
            authors: match self.authors {
                Some(authors) => Some(author_views(authors@)),
                None => None,
            },
            packagist_url: optional(self.packagist_url),
        }
    }
}

/// What a vector of releases holds.
pub open spec fn release_views(v: Seq<PackageVersion>) -> Seq<Release> {
    Seq::new(v.len(), |i: int| v[i]@)
}

impl View for Package {
    type V = RegistryPackage;

    open spec fn view(&self) -> RegistryPackage {
        RegistryPackage { name: self.name@, versions: release_views(self.versions@) }
    }
}

impl Package {
    pub fn new(name: String, versions: Vec<PackageVersion>) -> (package: Package)
        ensures
            package.name == name,
            package.versions == versions,
    {
        Package { name, versions }
    }
}

/// A release that satisfies a constraint: its version as text and parsed.
#[derive(Debug, Clone)]
pub struct Candidate {
    pub version: String,
    pub parsed: SemVer,
}

/// What a vector of candidates holds.
pub open spec fn candidate_views(v: Seq<Candidate>) -> Seq<(Seq<char>, Version)> {
    Seq::new(v.len(), |i: int| (v[i].version@, v[i].parsed@))
}

/// The candidate that a release makes under the alternatives of a
/// constraint: none unless it has a version, the version parses, and it
/// meets one of the alternatives.
pub open spec fn candidate_of(release: Release, branches: Seq<Seq<Seq<char>>>) -> Option<
    (Seq<char>, Version),
> {
    match release.version {
        Some(text) => match semver_version(text) {
            Some(parsed) => if admits(branches, text) {
                Some((text, parsed))
            } else {
                None
            },
            None => None,
        },
        None => None,
    }
}

/// The candidates among the releases, in the order of the releases.
pub open spec fn candidates_of(releases: Seq<Release>, branches: Seq<Seq<Seq<char>>>) -> Seq<
    (Seq<char>, Version),
>
    decreases releases.len(),
{
    if releases.len() == 0 {
        Seq::empty()
    } else {
        let before = candidates_of(releases.drop_last(), branches);
        match candidate_of(releases.last(), branches) {
            Some(candidate) => before.push(candidate),
            None => before,
        }
    }
}

/// Candidate `i` is the update over `installed`: it has higher precedence
/// than `installed`, no candidate has higher precedence than it, and every
/// candidate before it has lower precedence.
pub open spec fn is_update(candidates: Seq<(Seq<char>, Version)>, installed: Version, i: int) -> bool {
    &&& 0 <= i < candidates.len()
    &&& precedes(installed, candidates[i].1)
    &&& forall|j: int|
        0 <= j < candidates.len() ==> !precedes(candidates[i].1, (#[trigger] candidates[j]).1)
    &&& forall|j: int| 0 <= j < i ==> precedes((#[trigger] candidates[j]).1, candidates[i].1)
}

/// The version to update to over an installed version: the first of the
/// candidates of highest precedence, if that precedence is higher than the
/// installed one.
pub open spec fn update_over(candidates: Seq<(Seq<char>, Version)>, installed: Version) -> Option<
    Seq<char>,
> {
    if exists|i: int| is_update(candidates, installed, i) {
        Some(candidates[choose|i: int| is_update(candidates, installed, i)].0)
    } else {
        None
    }
}

/// The version to update to: with nothing installed the first candidate,
/// else the update over the installed version.
pub open spec fn selected(candidates: Seq<(Seq<char>, Version)>, installed: Option<Version>) -> Option<
    Seq<char>,
> {
    match installed {
        None => if candidates.len() > 0 {
            Some(candidates[0].0)
        } else {
            None
        },
        Some(current) => update_over(candidates, current),
    }
}

/// The installed version as the resolver reads it: `None` where nothing is
/// installed, the parsed version otherwise, which is again `None` where the
/// text does not parse.
pub open spec fn installed_of(installed: Option<Seq<char>>) -> Option<Option<Version>> {
    match installed {
        None => Some(None),
        Some(text) => match semver_version(text) {
            Some(version) => Some(Some(version)),
            None => None,
        },
    }
}

/// The version to update to among `releases`, under `constraint`, over
/// `installed`. `None` where the constraint cannot be read, the installed
/// version does not parse, or no release qualifies.
pub open spec fn update_of(releases: Seq<Release>, constraint: Seq<char>, installed: Option<Seq<char>>) -> Option<
    Seq<char>,
> {
    match (readable(constraint), installed_of(installed)) {
        (Some(branches), Some(version)) => selected(candidates_of(releases, branches), version),
        _ => None,
    }
}

/// At most one candidate is the update over an installed version.
pub proof fn lemma_update_unique(
    candidates: Seq<(Seq<char>, Version)>,
    installed: Version,
    i: int,
    j: int,
)
    requires
        is_update(candidates, installed, i),
        is_update(candidates, installed, j),
    ensures
        i == j,
{
    if i < j {
        assert(precedes(candidates[i].1, candidates[j].1));
        assert(!precedes(candidates[i].1, candidates[j].1));
    } else if j < i {
        assert(precedes(candidates[j].1, candidates[i].1));
        assert(!precedes(candidates[j].1, candidates[i].1));
    }
}

/// There is an update over an installed version exactly where some
/// candidate has higher precedence than it.
pub proof fn lemma_update_exists(candidates: Seq<(Seq<char>, Version)>, installed: Version)
    ensures
        selected(candidates, Some(installed)).is_some() <==> exists|j: int|
            0 <= j < candidates.len() && precedes(installed, (#[trigger] candidates[j]).1),
{
    if exists|j: int| 0 <= j < candidates.len() && precedes(installed, (#[trigger] candidates[j]).1) {
        let j = choose|j: int|
            0 <= j < candidates.len() && precedes(installed, (#[trigger] candidates[j]).1);
        let top = lemma_first_highest(candidates, candidates.len() as int);
        if !precedes(installed, candidates[top].1) {
            assert(!precedes(candidates[top].1, candidates[j].1));
            if precedes(candidates[j].1, candidates[top].1) {
                lemma_precedes_transitive(installed, candidates[j].1, candidates[top].1);
            } else {
                lemma_precedes_connected(candidates[j].1, candidates[top].1);
            }
        }
        assert(precedes(installed, candidates[top].1));
        assert(is_update(candidates, installed, top));
    } else {
        assert forall|i: int| !is_update(candidates, installed, i) by {
            if is_update(candidates, installed, i) {
                assert(precedes(installed, candidates[i].1));
            }
        }
    }
}

/// Among the first `n` candidates, `n > 0`, there is one that none of them
/// exceeds and that all before it precede.
proof fn lemma_first_highest(candidates: Seq<(Seq<char>, Version)>, n: int) -> (top: int)
    requires
        0 < n <= candidates.len(),
    ensures
        0 <= top < n,
        forall|j: int| 0 <= j < n ==> !precedes(candidates[top].1, (#[trigger] candidates[j]).1),
        forall|j: int| 0 <= j < top ==> precedes((#[trigger] candidates[j]).1, candidates[top].1),
    decreases n,
{
    if n == 1 {
        lemma_precedes_irreflexive(candidates[0].1);
        0
    } else {
        let before = lemma_first_highest(candidates, n - 1);
        lemma_raise(candidates, before, n - 1);
        if precedes(candidates[before].1, candidates[n - 1].1) {
            n - 1
        } else {
            before
        }
    }
}

/// Taking candidate `i` into account after the first `i`: where it exceeds
/// their first highest, `top`, it is the new first highest; where it does
/// not, `top` stays.
proof fn lemma_raise(candidates: Seq<(Seq<char>, Version)>, top: int, i: int)
    requires
        0 <= top < i < candidates.len(),
        forall|j: int| 0 <= j < i ==> !precedes(candidates[top].1, (#[trigger] candidates[j]).1),
        forall|j: int| 0 <= j < top ==> precedes((#[trigger] candidates[j]).1, candidates[top].1),
    ensures
        precedes(candidates[top].1, candidates[i].1) ==> {
            &&& forall|j: int|
                0 <= j <= i ==> !precedes(candidates[i].1, (#[trigger] candidates[j]).1)
            &&& forall|j: int| 0 <= j < i ==> precedes((#[trigger] candidates[j]).1, candidates[i].1)
        },
        !precedes(candidates[top].1, candidates[i].1) ==> forall|j: int|
            0 <= j <= i ==> !precedes(candidates[top].1, (#[trigger] candidates[j]).1),
{
    let best = candidates[top].1;
    let next = candidates[i].1;
    if precedes(best, next) {
        assert forall|j: int| 0 <= j <= i implies !precedes(next, (#[trigger] candidates[j]).1) by {
            if j == i {
                lemma_precedes_irreflexive(next);
            } else if precedes(next, candidates[j].1) {
                lemma_precedes_transitive(best, next, candidates[j].1);
            }
        }
        assert forall|j: int| 0 <= j < i implies precedes((#[trigger] candidates[j]).1, next) by {
            let other = candidates[j].1;
            if j < top {
                lemma_precedes_transitive(other, best, next);
            } else if j > top {
                if precedes(other, best) {
                    lemma_precedes_transitive(other, best, next);
                } else {
                    lemma_precedes_connected(other, best);
                }
            }
        }
    }
}

/// The version to update to among `candidates` over `installed`.
pub fn select_update(candidates: &Vec<Candidate>, installed: Option<&SemVer>) -> (r: Option<String>)
    ensures
        optional(r) == selected(
            candidate_views(candidates@),
            match installed {
                Some(v) => Some(v@),
                None => None,
            },
        ),
{
    let ghost all = candidate_views(candidates@);
    if candidates.len() == 0 {
        proof {
            if let Some(v) = installed {
                assert forall|i: int| !is_update(all, v@, i) by {}
            }
        }
        return None;
    }
    match installed {
        None => {
            let first = candidates[0].version.clone();
            proof {
                assert(all[0].0 == first@);
            }
            Some(first)
        },
        Some(version) => {
            let mut top: usize = 0;
            let mut i: usize = 1;
            proof {
                lemma_precedes_irreflexive(all[0].1);
            }
            while i < candidates.len()
                invariant
                    0 <= top < i <= candidates.len(),
                    all == candidate_views(candidates@),
                    forall|j: int| 0 <= j < i ==> !precedes(all[top as int].1, (#[trigger] all[j]).1),
                    forall|j: int| 0 <= j < top ==> precedes((#[trigger] all[j]).1, all[top as int].1),
                decreases candidates.len() - i,
            {
                proof {
                    lemma_raise(all, top as int, i as int);
                }
                if candidates[top].parsed.precedes(&candidates[i].parsed) {
                    top = i;
                }
                i += 1;
            }
            if version.precedes(&candidates[top].parsed) {
                proof {
                    assert(is_update(all, version@, top as int));
                    let c = choose|c: int| is_update(all, version@, c);
                    lemma_update_unique(all, version@, top as int, c);
                }
                Some(candidates[top].version.clone())
            } else {
                proof {
                    assert forall|k: int| !is_update(all, version@, k) by {
                        if is_update(all, version@, k) {
                            let other = all[k].1;
                            let best = all[top as int].1;
                            assert(!precedes(best, other));
                            if precedes(other, best) {
                                lemma_precedes_transitive(version@, other, best);
                            } else {
                                lemma_precedes_connected(other, best);
                            }
                        }
                    }
                }
                None
            }
        },
    }
}

/// The releases that satisfy `constraint`, in order.
pub fn matching_releases(releases: &Vec<PackageVersion>, constraint: &Constraint) -> (r: Vec<Candidate>)
    ensures
        candidate_views(r@) == candidates_of(release_views(releases@), constraint@),
{
    let ghost all = release_views(releases@);
    let mut out: Vec<Candidate> = Vec::new();
    let mut i: usize = 0;
    proof {
        assert(all.take(0) =~= Seq::empty());
        assert(candidate_views(out@) =~= Seq::empty());
    }
    while i < releases.len()
        invariant
            i <= releases.len(),
            all == release_views(releases@),
            candidate_views(out@) == candidates_of(all.take(i as int), constraint@),
        decreases releases.len() - i,
    {
        proof {
            let next = all.take(i + 1);
            assert(next.drop_last() =~= all.take(i as int));
            assert(next.last() == releases@[i as int]@);
        }
        let ghost before = candidate_views(out@);
        match &releases[i].version {
            Some(text) => match parse_version(text.as_str()) {
                Some(parsed) => {
                    if constraint.admits(text.as_str()) {
                        let ghost shown = (text@, parsed@);
                        out.push(Candidate { version: text.clone(), parsed });
                        proof {
                            assert(candidate_views(out@) =~= before.push(shown));
                        }
                    }
                },
                None => {},
            },
            None => {},
        }
        i += 1;
    }
    proof {
        assert(all.take(all.len() as int) =~= all);
    }
    out
}

/// The text of an optional string slice.
pub open spec fn optional_str(s: Option<&str>) -> Option<Seq<char>> {
    match s {
        Some(s) => Some(s@),
        None => None,
    }
}

/// The version to update to among `releases`, under `constraint`, over the
/// installed version (`None`: nothing is installed).
pub fn resolve_update(releases: &Vec<PackageVersion>, constraint: &str, installed: Option<&str>) -> (r:
    Option<String>)
    ensures
        optional(r) == update_of(release_views(releases@), constraint@, optional_str(installed)),
{
    let constraint = match Constraint::parse(constraint) {
        Some(constraint) => constraint,
        None => {
            return None;
        },
    };
    let candidates = matching_releases(releases, &constraint);
    match installed {
        None => select_update(&candidates, None),
        Some(text) => match parse_version(text) {
            Some(version) => select_update(&candidates, Some(&version)),
            None => None,
        },
    }
}

/// The installed version that a text stands for: the empty text stands for
/// nothing installed.
pub open spec fn installed_text(installed: Seq<char>) -> Option<Seq<char>> {
    if installed.len() == 0 {
        None
    } else {
        Some(installed)
    }
}

/// The version of `package` to update to, under `constraint`, over the
/// installed version; an empty `installed` says that nothing is installed.
pub fn check_for_package_update(package: &Package, constraint: String, installed: String) -> (r: Option<
    String,
>)
    ensures
        optional(r) == update_of(package@.versions, constraint@, installed_text(installed@)),
{
    if installed.as_str().is_empty() {
        resolve_update(&package.versions, constraint.as_str(), None)
    } else {
        resolve_update(&package.versions, constraint.as_str(), Some(installed.as_str()))
    }
}

/// Every candidate is made by one of the releases.
pub proof fn lemma_candidates_are_releases(
    releases: Seq<Release>,
    branches: Seq<Seq<Seq<char>>>,
    k: int,
)
    requires
        0 <= k < candidates_of(releases, branches).len(),
    ensures
        exists|i: int|
            0 <= i < releases.len() && candidate_of(#[trigger] releases[i], branches) == Some(
                candidates_of(releases, branches)[k],
            ),
    decreases releases.len(),
{
    let rest = releases.drop_last();
    let before = candidates_of(rest, branches);
    if k < before.len() {
        lemma_candidates_are_releases(rest, branches, k);
        let i = choose|i: int|
            0 <= i < rest.len() && candidate_of(#[trigger] rest[i], branches) == Some(before[k]);
        assert(rest[i] == releases[i]);
        assert(candidates_of(releases, branches)[k] == before[k]);
    } else {
        let i = releases.len() - 1;
        assert(candidate_of(releases[i], branches) == Some(candidates_of(releases, branches)[k]));
    }
}

/// An update is the version of one of the releases, it satisfies the
/// constraint, and it has higher precedence than the installed version
/// where there is one.
pub proof fn lemma_update_is_release(
    releases: Seq<Release>,
    constraint: Seq<char>,
    installed: Option<Seq<char>>,
    version: Seq<char>,
)
    requires
        update_of(releases, constraint, installed) == Some(version),
    ensures
        satisfies(constraint, version),
        exists|i: int| 0 <= i < releases.len() && (#[trigger] releases[i]).version == Some(version),
        semver_version(version).is_some(),
        installed matches Some(text) ==> semver_version(text).is_some() && precedes(
            semver_version(text).unwrap(),
            semver_version(version).unwrap(),
        ),
{
    let branches = readable(constraint).unwrap();
    let candidates = candidates_of(releases, branches);
    let k = match installed_of(installed).unwrap() {
        None => 0,
        Some(current) => choose|i: int| is_update(candidates, current, i),
    };
    assert(0 <= k < candidates.len() && candidates[k].0 == version);
    lemma_candidates_are_releases(releases, branches, k);
    let i = choose|i: int|
        0 <= i < releases.len() && candidate_of(#[trigger] releases[i], branches) == Some(
            candidates[k],
        );
    assert(releases[i].version == Some(version));
}

/// Where the registry answers requests for package data.
pub const PACKAGIST_API_URL: &'static str = "https://repo.packagist.org/p2";

/// Where the registry shows its packages to readers.
pub const PACKAGIST_REPO_URL: &'static str = "https://packagist.org/packages";

/// The address at which the registry hands out the data of `name`.
pub open spec fn api_url_of(name: Seq<char>) -> Seq<char> {
    PACKAGIST_API_URL@ + "/"@ + name + ".json"@
}

/// The address at which the registry shows the package `name`; double
/// quotes in the name are left out.
pub open spec fn package_url_of(name: Seq<char>) -> Seq<char> {
    PACKAGIST_REPO_URL@ + "/"@ + without(name, '"')
}

/// The address at which the registry hands out the data of `name`.
pub fn api_url(name: &str) -> (url: String)
    ensures
        url@ == api_url_of(name@),
{
    let mut url = String::from_str(PACKAGIST_API_URL);
    url.append("/");
    url.append(name);
    url.append(".json");
    url
}

/// The address at which the registry shows the package `name`.
pub fn package_url(name: &str) -> (url: String)
    ensures
        url@ == package_url_of(name@),
{
    let mut url = String::from_str(PACKAGIST_REPO_URL);
    url.append("/");
    let bare = remove_char(name, '"');
    url.append(bare.as_str());
    url
}

/// The string that the member `key` holds; `None` where there is no such
/// member or it is not a string.
pub open spec fn text_member(fields: Seq<(Seq<char>, Seq<char>)>, key: Seq<char>) -> Option<
    Seq<char>,
> {
    match value_of(fields, key) {
        Some(raw) => string_of(raw),
        None => None,
    }
}

/// The strings that the items decode into; `None` where one of them is not
/// a string.
pub open spec fn strings_of(items: Seq<Seq<char>>) -> Option<Seq<Seq<char>>>
    decreases items.len(),
{
    if items.len() == 0 {
        Some(Seq::empty())
    } else {
        match (strings_of(items.drop_last()), string_of(items.last())) {
            (Some(before), Some(s)) => Some(before.push(s)),
            _ => None,
        }
    }
}

/// The strings that the member `key` lists; `None` where there is no such
/// member or it is not an array of strings.
pub open spec fn list_member(fields: Seq<(Seq<char>, Seq<char>)>, key: Seq<char>) -> Option<
    Seq<Seq<char>>,
> {
    match value_of(fields, key) {
        Some(raw) => match array_of(raw) {
            Some(items) => strings_of(items),
            None => None,
        },
        None => None,
    }
}

/// The author that an item describes; `None` where it is not an object.
pub open spec fn author_of(item: Seq<char>) -> Option<Author> {
    match object_of(item) {
        Some(fields) => Some(
            Author {
                name: text_member(fields, "name"@),
                email: text_member(fields, "email"@),
                homepage: text_member(fields, "homepage"@),
                role: text_member(fields, "role"@),
            },
        ),
        None => None,
    }
}

/// The authors that the items describe; `None` where one of them is not an
/// object.
pub open spec fn authors_of(items: Seq<Seq<char>>) -> Option<Seq<Author>>
    decreases items.len(),
{
    if items.len() == 0 {
        Some(Seq::empty())
    } else {
        match (authors_of(items.drop_last()), author_of(items.last())) {
            (Some(before), Some(author)) => Some(before.push(author)),
            _ => None,
        }
    }
}

/// The authors that the member `authors` lists; `None` where there is no
/// such member or it is not an array of objects.
pub open spec fn authors_member(fields: Seq<(Seq<char>, Seq<char>)>) -> Option<Seq<Author>> {
    match value_of(fields, "authors"@) {
        Some(raw) => match array_of(raw) {
            Some(items) => authors_of(items),
            None => None,
        },
        None => None,
    }
}

/// The release of `package` that an item describes; `None` where it is not
/// an object. A field that is missing or of another type than expected is
/// absent from the release.
pub open spec fn release_of(item: Seq<char>, package: Seq<char>) -> Option<Release> {
    match object_of(item) {
        Some(fields) => Some(
            Release {
                name: text_member(fields, "name"@),
                description: text_member(fields, "description"@),
                keywords: list_member(fields, "keywords"@),
                homepage: text_member(fields, "homepage"@),
                version: text_member(fields, "version"@),
                version_normalized: text_member(fields, "version_normalized"@),
                license: list_member(fields, "license"@),
                authors: authors_member(fields),
                packagist_url: Some(package_url_of(package)),
            },
        ),
        None => None,
    }
}

/// The releases of `package` that the items describe, in order; items that
/// are not objects are passed over.
pub open spec fn releases_of(items: Seq<Seq<char>>, package: Seq<char>) -> Seq<Release>
    decreases items.len(),
{
    if items.len() == 0 {
        Seq::empty()
    } else {
        let before = releases_of(items.drop_last(), package);
        match release_of(items.last(), package) {
            Some(release) => before.push(release),
            None => before,
        }
    }
}

/// The items under `packages`, then under `name`, of the registry's answer;
/// `None` where the answer has another shape.
pub open spec fn listed(name: Seq<char>, body: Seq<char>) -> Option<Seq<Seq<char>>> {
    match object_of(body) {
        Some(top) => match value_of(top, "packages"@) {
            Some(raw) => match object_of(raw) {
                Some(packages) => match value_of(packages, name) {
                    Some(list) => array_of(list),
                    None => None,
                },
                None => None,
            },
            None => None,
        },
        None => None,
    }
}

/// The package that the registry's answer `body` to a request for `name`
/// describes; `None` where the answer holds no list of releases for that
/// name.
pub open spec fn package_of(name: Seq<char>, body: Seq<char>) -> Option<RegistryPackage> {
    match listed(name, body) {
        Some(items) => Some(RegistryPackage { name, versions: releases_of(items, name) }),
        None => None,
    }
}

/// The string that the member `key` holds.
pub fn text_field(fields: &Vec<Member>, key: &str) -> (r: Option<String>)
    ensures
        optional(r) == text_member(pairs(fields@), key@),
{
    match member_value(fields, key) {
        Some(raw) => string_value(raw.as_str()),
        None => None,
    }
}

/// Where a prefix of the items holds one that is not a string, so do all
/// of them.
pub proof fn lemma_strings_prefix(items: Seq<Seq<char>>, k: int)
    requires
        0 <= k <= items.len(),
        strings_of(items.take(k)).is_none(),
    ensures
        strings_of(items).is_none(),
    decreases items.len() - k,
{
    if k == items.len() {
        assert(items.take(k) =~= items);
    } else {
        assert(items.take(k + 1).drop_last() =~= items.take(k));
        lemma_strings_prefix(items, k + 1);
    }
}

/// Decodes each item as a string.
pub fn decode_strings(items: &Vec<String>) -> (r: Option<Vec<String>>)
    ensures
        optional_texts(r) == strings_of(texts(items@)),
{
    let ghost all = texts(items@);
    let mut out: Vec<String> = Vec::new();
    let mut i: usize = 0;
    proof {
        assert(all.take(0) =~= Seq::empty());
        assert(texts(out@) =~= Seq::empty());
    }
    while i < items.len()
        invariant
            i <= items.len(),
            all == texts(items@),
            strings_of(all.take(i as int)) == Some(texts(out@)),
        decreases items.len() - i,
    {
        proof {
            let next = all.take(i + 1);
            assert(next.drop_last() =~= all.take(i as int));
            assert(next.last() == items@[i as int]@);
        }
        let ghost before = texts(out@);
        match string_value(items[i].as_str()) {
            Some(s) => {
                let ghost shown = s@;
                out.push(s);
                proof {
                    assert(texts(out@) =~= before.push(shown));
                }
            },
            None => {
                proof {
                    lemma_strings_prefix(all, i + 1);
                }
                return None;
            },
        }
        i += 1;
    }
    proof {
        assert(all.take(all.len() as int) =~= all);
    }
    Some(out)
}

/// The strings that the member `key` lists.
pub fn list_field(fields: &Vec<Member>, key: &str) -> (r: Option<Vec<String>>)
    ensures
        optional_texts(r) == list_member(pairs(fields@), key@),
{
    match member_value(fields, key) {
        Some(raw) => match array_items(raw.as_str()) {
            Some(items) => decode_strings(&items),
            None => None,
        },
        None => None,
    }
}

/// The views of an optional vector of authors.
pub open spec fn optional_authors(v: Option<Vec<PackageAuthorField>>) -> Option<Seq<Author>> {
    match v {
        Some(v) => Some(author_views(v@)),
        None => None,
    }
}

/// The view of an optional author.
pub open spec fn optional_author(a: Option<PackageAuthorField>) -> Option<Author> {
    match a {
        Some(a) => Some(a@),
        None => None,
    }
}

/// Decodes an author.
pub fn decode_author(item: &str) -> (r: Option<PackageAuthorField>)
    ensures
        optional_author(r) == author_of(item@),
{
    match object_members(item) {
        Some(fields) => Some(
            PackageAuthorField {
                name: text_field(&fields, "name"),
                email: text_field(&fields, "email"),
                homepage: text_field(&fields, "homepage"),
                role: text_field(&fields, "role"),
            },
        ),
        None => None,
    }
}

/// Where a prefix of the items holds one that is not an object, so do all
/// of them.
pub proof fn lemma_authors_prefix(items: Seq<Seq<char>>, k: int)
    requires
        0 <= k <= items.len(),
        authors_of(items.take(k)).is_none(),
    ensures
        authors_of(items).is_none(),
    decreases items.len() - k,
{
    if k == items.len() {
        assert(items.take(k) =~= items);
    } else {
        assert(items.take(k + 1).drop_last() =~= items.take(k));
        lemma_authors_prefix(items, k + 1);
    }
}

/// Decodes each item as an author.
pub fn decode_authors(items: &Vec<String>) -> (r: Option<Vec<PackageAuthorField>>)
    ensures
        optional_authors(r) == authors_of(texts(items@)),
{
    let ghost all = texts(items@);
    let mut out: Vec<PackageAuthorField> = Vec::new();
    let mut i: usize = 0;
    proof {
        assert(all.take(0) =~= Seq::empty());
        assert(author_views(out@) =~= Seq::empty());
    }
    while i < items.len()
        invariant
            i <= items.len(),
            all == texts(items@),
            authors_of(all.take(i as int)) == Some(author_views(out@)),
        decreases items.len() - i,
    {
        proof {
            let next = all.take(i + 1);
            assert(next.drop_last() =~= all.take(i as int));
            assert(next.last() == items@[i as int]@);
        }
        let ghost before = author_views(out@);
        match decode_author(items[i].as_str()) {
            Some(author) => {
                let ghost shown = author@;
                out.push(author);
                proof {
                    assert(author_views(out@) =~= before.push(shown));
                }
            },
            None => {
                proof {
                    lemma_authors_prefix(all, i + 1);
                }
                return None;
            },
        }
        i += 1;
    }
    proof {
        assert(all.take(all.len() as int) =~= all);
    }
    Some(out)
}

/// The authors that the member `authors` lists.
pub fn authors_field(fields: &Vec<Member>) -> (r: Option<Vec<PackageAuthorField>>)
    ensures
        optional_authors(r) == authors_member(pairs(fields@)),
{
    match member_value(fields, "authors") {
        Some(raw) => match array_items(raw.as_str()) {
            Some(items) => decode_authors(&items),
            None => None,
        },
        None => None,
    }
}

/// The view of an optional release.
pub open spec fn optional_release(r: Option<PackageVersion>) -> Option<Release> {
    match r {
        Some(r) => Some(r@),
        None => None,
    }
}

/// Decodes a release of `package`.
pub fn decode_release(item: &str, package: &str) -> (r: Option<PackageVersion>)
    ensures
        optional_release(r) == release_of(item@, package@),
{
    match object_members(item) {
        Some(fields) => Some(
            PackageVersion {
                name: text_field(&fields, "name"),
                description: text_field(&fields, "description"),
                keywords: list_field(&fields, "keywords"),
                homepage: text_field(&fields, "homepage"),
                version: text_field(&fields, "version"),
                version_normalized: text_field(&fields, "version_normalized"),
                license: list_field(&fields, "license"),
                authors: authors_field(&fields),
                packagist_url: Some(package_url(package)),
            },
        ),
        None => None,
    }
}

/// Decodes the releases of `package`.
pub fn decode_releases(items: &Vec<String>, package: &str) -> (r: Vec<PackageVersion>)
    ensures
        release_views(r@) == releases_of(texts(items@), package@),
{
    let ghost all = texts(items@);
    let mut out: Vec<PackageVersion> = Vec::new();
    let mut i: usize = 0;
    proof {
        assert(all.take(0) =~= Seq::empty());
        assert(release_views(out@) =~= Seq::empty());
    }
    while i < items.len()
        invariant
            i <= items.len(),
            all == texts(items@),
            release_views(out@) == releases_of(all.take(i as int), package@),
        decreases items.len() - i,
    {
        proof {
            let next = all.take(i + 1);
            assert(next.drop_last() =~= all.take(i as int));
            assert(next.last() == items@[i as int]@);
        }
        let ghost before = release_views(out@);
        match decode_release(items[i].as_str(), package) {
            Some(release) => {
                let ghost shown = release@;
                out.push(release);
                proof {
                    assert(release_views(out@) =~= before.push(shown));
                }
            },
            None => {},
        }
        i += 1;
    }
    proof {
        assert(all.take(all.len() as int) =~= all);
    }
    out
}

/// The items under `packages`, then under `name`, of the registry's answer.
pub fn listed_items(name: &str, body: &str) -> (r: Option<Vec<String>>)
    ensures
        optional_texts(r) == listed(name@, body@),
{
    let top = match object_members(body) {
        Some(top) => top,
        None => {
            return None;
        },
    };
    let packages = match member_value(&top, "packages") {
        Some(raw) => match object_members(raw.as_str()) {
            Some(packages) => packages,
            None => {
                return None;
            },
        },
        None => {
            return None;
        },
    };
    match member_value(&packages, name) {
        Some(list) => array_items(list.as_str()),
        None => None,
    }
}

/// The view of an optional package.
pub open spec fn optional_package(p: Option<Package>) -> Option<RegistryPackage> {
    match p {
        Some(p) => Some(p@),
        None => None,
    }
}

/// The package that the registry's answer `body` to a request for `name`
/// describes.
pub fn get_package_info(name: String, body: &str) -> (r: Option<Package>)
    ensures
        optional_package(r) == package_of(name@, body@),
{
    match listed_items(name.as_str(), body) {
        Some(items) => {
            let versions = decode_releases(&items, name.as_str());
            Some(Package::new(name, versions))
        },
        None => None,
    }
}

/// Where the registry lists the names of all its packages.
pub const PACKAGIST_LIST_URL: &'static str = "https://packagist.org/packages/list.json";

/// The names that the registry's list of packages holds: the strings under
/// `packageNames`, none where the answer has another shape.
pub open spec fn names_listed(body: Seq<char>) -> Seq<Seq<char>> {
    match object_of(body) {
        Some(top) => match list_member(top, "packageNames"@) {
            Some(names) => names,
            None => Seq::empty(),
        },
        None => Seq::empty(),
    }
}

/// The names that the registry's list of packages holds.
pub fn get_all_packages(body: &str) -> (r: Vec<String>)
    ensures
        texts(r@) == names_listed(body@),
{
    let listed = match object_members(body) {
        Some(top) => list_field(&top, "packageNames"),
        None => None,
    };
    match listed {
        Some(names) => names,
        None => {
            let none: Vec<String> = Vec::new();
            proof {
                assert(texts(none@) =~= Seq::empty());
            }
            none
        },
    }
}

/// The packages fetched from the registry, at most one per name.
#[derive(Debug, Clone)]
pub struct Registry {
    pub packages: Vec<Package>,
}

/// Index `i` holds the package called `name`: the first one of that name.
pub open spec fn is_listed(v: Seq<Package>, name: Seq<char>, i: int) -> bool {
    &&& 0 <= i < v.len()
    &&& v[i].name@ == name
    &&& forall|k: int| 0 <= k < i ==> (#[trigger] v[k]).name@ != name
}

/// No name has two packages.
pub open spec fn distinct_packages(v: Seq<Package>) -> bool {
    forall|i: int, j: int|
        0 <= i < v.len() && 0 <= j < v.len() && (#[trigger] v[i]).name@ == (#[trigger] v[j]).name@
            ==> i == j
}

/// The package of each name that has one.
pub open spec fn listing(v: Seq<Package>) -> Map<Seq<char>, RegistryPackage> {
    Map::new(
        |name: Seq<char>| exists|i: int| is_listed(v, name, i),
        |name: Seq<char>| v[choose|i: int| is_listed(v, name, i)]@,
    )
}

impl View for Registry {
    type V = Map<Seq<char>, RegistryPackage>;

    open spec fn view(&self) -> Map<Seq<char>, RegistryPackage> {
        listing(self.packages@)
    }
}

impl Registry {
    /// No name has two packages.
    pub open spec fn wf(&self) -> bool {
        distinct_packages(self.packages@)
    }

    /// A registry that holds nothing.
    pub fn new() -> (registry: Registry)
        ensures
            registry.wf(),
            registry@ == Map::<Seq<char>, RegistryPackage>::empty(),
    {
        let registry = Registry { packages: Vec::new() };
        proof {
            assert(registry@ =~= Map::<Seq<char>, RegistryPackage>::empty());
        }
        registry
    }

    /// The index of the first package called `name`.
    pub fn position(&self, name: &str) -> (r: Option<usize>)
        ensures
            match r {
                Some(i) => is_listed(self.packages@, name@, i as int),
                None => forall|k: int|
                    0 <= k < self.packages@.len() ==> (#[trigger] self.packages@[k]).name@ != name@,
            },
    {
        let mut i: usize = 0;
        while i < self.packages.len()
            invariant
                i <= self.packages.len(),
                forall|k: int| 0 <= k < i ==> (#[trigger] self.packages@[k]).name@ != name@,
            decreases self.packages.len() - i,
        {
            if same_text(self.packages[i].name.as_str(), name) {
                return Some(i);
            }
            i += 1;
        }
        None
    }

    /// The package called `name`, if the registry holds one.
    pub fn get(&self, name: &str) -> (r: Option<&Package>)
        ensures
            match r {
                Some(package) => self@.contains_key(name@) && package@ == self@[name@],
                None => !self@.contains_key(name@),
            },
    {
        match self.position(name) {
            Some(i) => {
                proof {
                    lemma_listed_unique(
                        self.packages@,
                        name@,
                        i as int,
                        choose|c: int| is_listed(self.packages@, name@, c),
                    );
                }
                Some(&self.packages[i])
            },
            None => {
                proof {
                    assert forall|c: int| !is_listed(self.packages@, name@, c) by {
                        if 0 <= c < self.packages@.len() {
                            assert(self.packages@[c].name@ != name@);
                        }
                    }
                }
                None
            },
        }
    }

    /// Puts `package` under its name, in place of what was there before.
    pub fn insert(&mut self, package: Package)
        ensures
            final(self)@ == old(self)@.insert(package.name@, package@),
            old(self).wf() ==> final(self).wf(),
    {
        let ghost before = self.packages@;
        let ghost key = package.name@;
        let ghost value = package@;
        match self.position(package.name.as_str()) {
            Some(i) => {
                self.packages.set(i, package);
                proof {
                    let after = self.packages@;
                    assert forall|k: int| 0 <= k < after.len() implies (#[trigger] after[k]).name@
                        == before[k].name@ by {}
                    assert forall|n: Seq<char>, k: int| is_listed(after, n, k) == is_listed(
                        before,
                        n,
                        k,
                    ) by {
                        lemma_same_packages(before, after, n, k);
                    }
                    assert forall|n: Seq<char>| #[trigger]
                        listing(after).contains_key(n) implies listing(after)[n] == listing(
                        before,
                    ).insert(key, value)[n] by {
                        let a = choose|k: int| is_listed(after, n, k);
                        let b = choose|k: int| is_listed(before, n, k);
                        assert(is_listed(before, n, a));
                        lemma_listed_unique(before, n, a, b);
                        if n == key {
                            lemma_listed_unique(before, n, a, i as int);
                        }
                    }
                    assert(listing(after) =~= listing(before).insert(key, value)) by {
                        assert(is_listed(before, key, i as int));
                    }
                    if distinct_packages(before) {
                        assert forall|a: int, b: int|
                            0 <= a < after.len() && 0 <= b < after.len() && (
                            #[trigger] after[a]).name@ == (#[trigger] after[b]).name@ implies a
                            == b by {
                            assert(before[a].name@ == after[a].name@);
                            assert(before[b].name@ == after[b].name@);
                        }
                    }
                }
            },
            None => {
                self.packages.push(package);
                proof {
                    let after = self.packages@;
                    let last = before.len() as int;
                    assert forall|k: int| 0 <= k < before.len() implies (#[trigger] after[k])
                        == before[k] by {}
                    assert forall|n: Seq<char>, k: int| is_listed(after, n, k) == (is_listed(
                        before,
                        n,
                        k,
                    ) || (k == last && n == key)) by {
                        lemma_one_more_package(before, after, n, k);
                    }
                    assert forall|n: Seq<char>| #[trigger]
                        listing(after).contains_key(n) implies listing(after)[n] == listing(
                        before,
                    ).insert(key, value)[n] by {
                        let a = choose|k: int| is_listed(after, n, k);
                        if n != key {
                            let b = choose|k: int| is_listed(before, n, k);
                            assert(is_listed(before, n, a));
                            lemma_listed_unique(before, n, a, b);
                        } else {
                            assert(!is_listed(before, n, a)) by {
                                if 0 <= a < before.len() {
                                    assert(before[a].name@ != key);
                                }
                            }
                        }
                    }
                    assert(listing(after) =~= listing(before).insert(key, value)) by {
                        assert(is_listed(after, key, last));
                    }
                    if distinct_packages(before) {
                        assert forall|a: int, b: int|
                            0 <= a < after.len() && 0 <= b < after.len() && (
                            #[trigger] after[a]).name@ == (#[trigger] after[b]).name@ implies a
                            == b by {
                            if a < last {
                                assert(before[a].name@ != key);
                            }
                            if b < last {
                                assert(before[b].name@ != key);
                            }
                        }
                    }
                }
            },
        }
    }
}

/// At most one index holds the package of a name.
pub proof fn lemma_listed_unique(v: Seq<Package>, name: Seq<char>, i: int, j: int)
    requires
        is_listed(v, name, i),
        is_listed(v, name, j),
    ensures
        i == j,
{
    if i < j {
        assert(v[i].name@ != name);
    } else if j < i {
        assert(v[j].name@ != name);
    }
}

/// Two vectors with the same names at the same indices hold their packages
/// at the same indices.
proof fn lemma_same_packages(v: Seq<Package>, w: Seq<Package>, name: Seq<char>, i: int)
    requires
        v.len() == w.len(),
        forall|k: int| 0 <= k < w.len() ==> (#[trigger] w[k]).name@ == v[k].name@,
    ensures
        is_listed(w, name, i) == is_listed(v, name, i),
{
    if is_listed(v, name, i) {
        assert forall|k: int| 0 <= k < i implies (#[trigger] w[k]).name@ != name by {
            assert(v[k].name@ != name);
        }
    }
    if is_listed(w, name, i) {
        assert forall|k: int| 0 <= k < i implies (#[trigger] v[k]).name@ != name by {
            assert(w[k].name@ == v[k].name@);
        }
    }
}

/// A vector with one more package, of a name that it did not hold, has its
/// packages where they were, and the package of the new name at its end.
proof fn lemma_one_more_package(v: Seq<Package>, w: Seq<Package>, name: Seq<char>, i: int)
    requires
        w.len() == v.len() + 1,
        forall|k: int| 0 <= k < v.len() ==> (#[trigger] w[k]) == v[k],
        forall|k: int| 0 <= k < v.len() ==> (#[trigger] v[k]).name@ != w[v.len() as int].name@,
    ensures
        is_listed(w, name, i) == (is_listed(v, name, i) || (i == v.len() && name == w.last().name@)),
{
    let last = v.len() as int;
    if is_listed(v, name, i) {
        assert forall|k: int| 0 <= k < i implies (#[trigger] w[k]).name@ != name by {
            assert(v[k].name@ != name);
        }
    }
    if is_listed(w, name, i) && i < last {
        assert forall|k: int| 0 <= k < i implies (#[trigger] v[k]).name@ != name by {
            assert(w[k] == v[k]);
        }
    }
    if i == last && name == w[last].name@ {
        assert forall|k: int| 0 <= k < i implies (#[trigger] w[k]).name@ != name by {
            assert(v[k].name@ != name);
        }
    }
}

/// The texts held by a vector of optional strings.
pub open spec fn optional_rows(v: Seq<Option<String>>) -> Seq<Option<Seq<char>>> {
    Seq::new(v.len(), |i: int| optional(v[i]))
}

/// The registry made of the answers to the first `n` requests: the answer
/// `bodies[i]` is that to the request for `packages[i]`, `None` where the
/// request failed. An answer that describes no package adds nothing; of two
/// answers for one name the later one counts.
pub open spec fn fetched(packages: Seq<Dependency>, bodies: Seq<Option<Seq<char>>>, n: int) -> Map<
    Seq<char>,
    RegistryPackage,
>
    decreases n,
{
    if n <= 0 {
        Map::empty()
    } else {
        let before = fetched(packages, bodies, n - 1);
        match bodies[n - 1] {
            Some(body) => match package_of(packages[n - 1].name, body) {
                Some(package) => before.insert(package.name, package),
                None => before,
            },
            None => before,
        }
    }
}

/// The registry made of the answers to the requests for `packages`; the
/// shorter of the two sequences sets how many count.
pub open spec fn registry_of(packages: Seq<Dependency>, bodies: Seq<Option<Seq<char>>>) -> Map<
    Seq<char>,
    RegistryPackage,
> {
    fetched(
        packages,
        bodies,
        if packages.len() <= bodies.len() {
            packages.len() as int
        } else {
            bodies.len() as int
        },
    )
}

/// Gathers the registry's answers to the requests for `packages` into a
/// registry.
pub fn get_packages_info(packages: Vec<ComposerDependency>, bodies: Vec<Option<String>>) -> (r:
    Registry)
    ensures
        r.wf(),
        r@ == registry_of(dependency_views(packages@), optional_rows(bodies@)),
{
    let ghost names = dependency_views(packages@);
    let ghost answers = optional_rows(bodies@);
    let count = if packages.len() <= bodies.len() {
        packages.len()
    } else {
        bodies.len()
    };
    let mut registry = Registry::new();
    let mut i: usize = 0;
    while i < count
        invariant
            i <= count,
            count <= packages.len(),
            count <= bodies.len(),
            names == dependency_views(packages@),
            answers == optional_rows(bodies@),
            registry.wf(),
            registry@ == fetched(names, answers, i as int),
        decreases count - i,
    {
        match &bodies[i] {
            Some(body) => {
                match get_package_info(packages[i].name.clone(), body.as_str()) {
                    Some(package) => {
                        registry.insert(package);
                    },
                    None => {},
                }
            },
            None => {},
        }
        i += 1;
    }
    registry
}

} // verus!
