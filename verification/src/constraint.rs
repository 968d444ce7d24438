//! Version constraints: alternatives joined by `||`, each a run of terms
//! separated by spaces that must all hold.
//!
//! The terms themselves (exact versions, comparison operators, caret, tilde,
//! wildcard) are parsed and evaluated by the `semver` crate.

use vstd::prelude::*;
use semver::VersionReq;
use crate::json::texts;
use crate::text::{chars_of, rows, split, split_chars, string_of};
use crate::version::{SemVer, Version};

verus! {

/// The numbers and the pre-release tag of the version that
/// `semver::Version::parse` reads from `text`; `None` where it reports an
/// error.
pub uninterp spec fn semver_version(text: Seq<char>) -> Option<Version>;

/// Whether `semver::VersionReq::parse` reads a requirement from `text`.
pub uninterp spec fn semver_requirement(text: Seq<char>) -> bool;

/// Whether `requirement` and `version` both parse, and
/// `semver::VersionReq::matches` then says that the version meets the
/// requirement.
pub uninterp spec fn semver_matches(requirement: Seq<char>, version: Seq<char>) -> bool;

/// Calls `semver::Version::parse` and hands out the numbers and the
/// pre-release tag of what it returns. The contract claims that the outcome
/// is a function of the text.
#[verifier::external_body]
pub(crate) fn parse_version(text: &str) -> (r: Option<SemVer>)
    ensures
        match r {
            Some(v) => semver_version(text@) == Some(v@),
            None => semver_version(text@).is_none(),
        },
{
    let v = semver::Version::parse(text).ok()?;
    Some(SemVer { major: v.major, minor: v.minor, patch: v.patch, pre: v.pre.as_str().to_string() })
}

/// Calls `semver::VersionReq::parse` and says whether it succeeded. The
/// contract claims that the outcome is a function of the text.
#[verifier::external_body]
pub(crate) fn requirement_parses(text: &str) -> (r: bool)
    ensures
        r == semver_requirement(text@),
{
    VersionReq::parse(text).is_ok()
}

/// Calls `semver::VersionReq::matches` on what the two texts parse to, and
/// says no where one of them does not parse. The contract claims that the
/// outcome is a function of the two texts.
#[verifier::external_body]
pub(crate) fn requirement_matches(requirement: &str, version: &str) -> (r: bool)
    ensures
        r == semver_matches(requirement@, version@),
{
    match (VersionReq::parse(requirement), semver::Version::parse(version)) {
        (Ok(req), Ok(v)) => req.matches(&v),
        _ => false,
    }
}

/// The pieces that are not empty, in order.
pub open spec fn non_empty(pieces: Seq<Seq<char>>) -> Seq<Seq<char>>
    decreases pieces.len(),
{
    if pieces.len() == 0 {
        pieces
    } else if pieces.last().len() == 0 {
        non_empty(pieces.drop_last())
    } else {
        non_empty(pieces.drop_last()).push(pieces.last())
    }
}

/// The terms of one alternative: what stands between its spaces.
pub open spec fn terms_of(branch: Seq<char>) -> Seq<Seq<char>> {
    non_empty(split(branch, ' '))
}

/// The pieces between single `|` characters are those of alternatives
/// joined by `||`: every second piece is empty, and each of the others holds
/// a term.
pub open spec fn well_joined(pieces: Seq<Seq<char>>) -> bool {
    &&& pieces.len() % 2 == 1
    &&& forall|i: int| 0 <= i < pieces.len() && i % 2 == 1 ==> (#[trigger] pieces[i]).len() == 0
    &&& forall|i: int|
        0 <= i < pieces.len() && i % 2 == 0 ==> terms_of(#[trigger] pieces[i]).len() > 0
}

/// The alternatives of a constraint, each as its terms; `None` where the
/// text is not made of alternatives joined by `||`.
pub open spec fn branches_of(constraint: Seq<char>) -> Option<Seq<Seq<Seq<char>>>> {
    let pieces = split(constraint, '|');
    if well_joined(pieces) {
        Some(Seq::new(((pieces.len() + 1) / 2) as nat, |i: int| terms_of(pieces[2 * i])))
    } else {
        None
    }
}

/// Every term of every alternative parses as a requirement.
pub open spec fn all_parse(branches: Seq<Seq<Seq<char>>>) -> bool {
    forall|i: int, j: int|
        0 <= i < branches.len() && 0 <= j < branches[i].len() ==> semver_requirement(
            #[trigger] branches[i][j],
        )
}

/// The version meets every term of the alternative.
pub open spec fn branch_admits(branch: Seq<Seq<char>>, version: Seq<char>) -> bool {
    forall|j: int| 0 <= j < branch.len() ==> semver_matches(#[trigger] branch[j], version)
}

/// The version meets one of the alternatives.
pub open spec fn admits(branches: Seq<Seq<Seq<char>>>, version: Seq<char>) -> bool {
    exists|i: int| 0 <= i < branches.len() && branch_admits(#[trigger] branches[i], version)
}

/// The alternatives of a constraint whose terms all parse; `None` where
/// the constraint cannot be read.
pub open spec fn readable(constraint: Seq<char>) -> Option<Seq<Seq<Seq<char>>>> {
    match branches_of(constraint) {
        Some(branches) => if all_parse(branches) {
            Some(branches)
        } else {
            None
        },
        None => None,
    }
}

/// The version text satisfies the constraint.
pub open spec fn satisfies(constraint: Seq<char>, version: Seq<char>) -> bool {
    match readable(constraint) {
        Some(branches) => admits(branches, version),
        None => false,
    }
}

/// The terms held by a vector of alternatives.
pub open spec fn branch_views(v: Seq<Vec<String>>) -> Seq<Seq<Seq<char>>> {
    Seq::new(v.len(), |i: int| texts(v[i]@))
}

/// The terms of one alternative.
pub fn terms(branch: &[char]) -> (r: Vec<String>)
    ensures
        texts(r@) == terms_of(branch@),
{
    let pieces = split_chars(branch, ' ');
    let ghost all = rows(pieces@);
    let mut out: Vec<String> = Vec::new();
    let mut i: usize = 0;
    proof {
        assert(all.take(0) =~= Seq::empty());
        assert(texts(out@) =~= Seq::empty());
    }
    while i < pieces.len()
        invariant
            i <= pieces.len(),
            all == rows(pieces@),
            texts(out@) == non_empty(all.take(i as int)),
        decreases pieces.len() - i,
    {
        proof {
            let next = all.take(i + 1);
            assert(next.drop_last() =~= all.take(i as int));
            assert(next.last() == pieces@[i as int]@);
        }
        if pieces[i].len() > 0 {
            let ghost before = texts(out@);
            let term = string_of(pieces[i].as_slice());
            out.push(term);
            proof {
                assert(texts(out@) =~= before.push(pieces@[i as int]@));
            }
        }
        i += 1;
    }
    proof {
        assert(all.take(all.len() as int) =~= all);
    }
    out
}

/// The alternatives of a constraint, each as its terms.
pub fn split_constraint(constraint: &str) -> (r: Option<Vec<Vec<String>>>)
    ensures
        match r {
            Some(branches) => branches_of(constraint@) == Some(branch_views(branches@)),
            None => branches_of(constraint@).is_none(),
        },
{
    let chars = chars_of(constraint);
    let pieces = split_chars(chars.as_slice(), '|');
    let ghost all = rows(pieces@);
    if pieces.len() % 2 != 1 {
        return None;
    }
    let mut out: Vec<Vec<String>> = Vec::new();
    let mut i: usize = 0;
    loop
        invariant
            i < pieces.len(),
            i % 2 == 0,
            pieces.len() % 2 == 1,
            all == rows(pieces@),
            all == split(constraint@, '|'),
            out@.len() == i / 2,
            forall|k: int| 0 <= k < i && k % 2 == 1 ==> (#[trigger] all[k]).len() == 0,
            forall|k: int| 0 <= k < i && k % 2 == 0 ==> terms_of(#[trigger] all[k]).len() > 0,
            forall|k: int| 0 <= k < out@.len() ==> texts(#[trigger] out@[k]@) == terms_of(all[2 * k]),
        decreases pieces.len() - i,
    {
        let branch = terms(pieces[i].as_slice());
        if branch.len() == 0 {
            proof {
                assert(terms_of(all[i as int]).len() == 0);
            }
            return None;
        }
        out.push(branch);
        if i + 1 >= pieces.len() {
            proof {
                assert(well_joined(all));
                assert(branch_views(out@) =~= branches_of(constraint@).unwrap());
            }
            return Some(out);
        }
        if pieces[i + 1].len() > 0 {
            proof {
                assert(all[i + 1].len() > 0);
            }
            return None;
        }
        i += 2;
    }
}

/// Whether every term of the alternative parses as a requirement.
fn terms_parse(branch: &Vec<String>) -> (r: bool)
    ensures
        r == forall|j: int| 0 <= j < branch@.len() ==> semver_requirement(#[trigger] texts(branch@)[j]),
{
    let mut j: usize = 0;
    while j < branch.len()
        invariant
            j <= branch.len(),
            forall|b: int| 0 <= b < j ==> semver_requirement(#[trigger] texts(branch@)[b]),
        decreases branch.len() - j,
    {
        if !requirement_parses(branch[j].as_str()) {
            proof {
                assert(!semver_requirement(texts(branch@)[j as int]));
            }
            return false;
        }
        j += 1;
    }
    true
}

/// Whether the version text meets every term of the alternative.
fn terms_hold(branch: &Vec<String>, version: &str) -> (r: bool)
    ensures
        r == branch_admits(texts(branch@), version@),
{
    let mut j: usize = 0;
    while j < branch.len()
        invariant
            j <= branch.len(),
            forall|b: int| 0 <= b < j ==> semver_matches(#[trigger] texts(branch@)[b], version@),
        decreases branch.len() - j,
    {
        if !requirement_matches(branch[j].as_str(), version) {
            proof {
                assert(!semver_matches(texts(branch@)[j as int], version@));
            }
            return false;
        }
        j += 1;
    }
    true
}

/// A constraint that can be read: its alternatives, of which every term
/// parses as a requirement.
#[derive(Debug, Clone)]
pub struct Constraint {
    branches: Vec<Vec<String>>,
}

impl View for Constraint {
    type V = Seq<Seq<Seq<char>>>;

    closed spec fn view(&self) -> Seq<Seq<Seq<char>>> {
        branch_views(self.branches@)
    }
}

impl Constraint {
    /// Reads a constraint; `None` where it is not made of alternatives joined
    /// by `||`, or a term does not parse as a requirement.
    pub fn parse(text: &str) -> (r: Option<Constraint>)
        ensures
            match r {
                Some(constraint) => readable(text@) == Some(constraint@),
                None => readable(text@).is_none(),
            },
    {
        match split_constraint(text) {
            None => None,
            Some(branches) => {
                let ghost all = branch_views(branches@);
                let mut i: usize = 0;
                while i < branches.len()
                    invariant
                        i <= branches.len(),
                        all == branch_views(branches@),
                        branches_of(text@) == Some(all),
                        forall|a: int, b: int|
                            0 <= a < i && 0 <= b < all[a].len() ==> semver_requirement(
                                #[trigger] all[a][b],
                            ),
                    decreases branches.len() - i,
                {
                    if !terms_parse(&branches[i]) {
                        proof {
                            let j = choose|j: int|
                                0 <= j < all[i as int].len() && !semver_requirement(
                                    #[trigger] all[i as int][j],
                                );
                            assert(!semver_requirement(all[i as int][j]));
                        }
                        return None;
                    }
                    i += 1;
                }
                Some(Constraint { branches })
            },
        }
    }

    /// Whether the version text meets one of the alternatives.
    pub fn admits(&self, version: &str) -> (r: bool)
        ensures
            r == admits(self@, version@),
    {
        let ghost all = self@;
        let mut i: usize = 0;
        while i < self.branches.len()
            invariant
                i <= self.branches.len(),
                all == branch_views(self.branches@),
                forall|k: int| 0 <= k < i ==> !branch_admits(#[trigger] all[k], version@),
            decreases self.branches.len() - i,
        {
            if terms_hold(&self.branches[i], version) {
                proof {
                    assert(branch_admits(all[i as int], version@));
                }
                return true;
            }
            i += 1;
        }
        false
    }
}

} // verus!
