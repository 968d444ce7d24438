//! Semantic versions and their precedence.
//!
//! Precedence compares major, minor and patch as numbers. A version with a
//! pre-release tag comes before the same version without one. Two tags are
//! compared identifier by identifier: digits-only identifiers as numbers and
//! before all others, the others as text, and a tag that runs out first
//! comes first.

use vstd::prelude::*;
use crate::order::{
    common_prefix, connected, differs_at, irreflexive, lemma_lex_connected, lemma_lex_irreflexive,
    lemma_lex_transitive, lex_less, transitive,
};
use crate::text::{chars_of, lemma_split_nonempty, rows, same_chars, split, split_chars};

verus! {

/// A parsed semantic version, without its build metadata.
#[derive(Debug, Clone)]
pub struct SemVer {
    pub major: u64,
    pub minor: u64,
    pub patch: u64,
    /// The pre-release tag, empty for a release.
    pub pre: String,
}

/// What a `SemVer` holds.
pub struct Version {
    pub major: u64,
    pub minor: u64,
    pub patch: u64,
    pub pre: Seq<char>,
}

impl View for SemVer {
    type V = Version;

    open spec fn view(&self) -> Version {
        Version { major: self.major, minor: self.minor, patch: self.patch, pre: self.pre@ }
    }
}

/// The order of characters by code point.
pub open spec fn char_order() -> spec_fn(char, char) -> bool {
    |x: char, y: char| (x as int) < (y as int)
}

/// `a` comes before `b` as text.
pub open spec fn text_less(a: Seq<char>, b: Seq<char>) -> bool {
    lex_less(a, b, char_order())
}

/// An ASCII digit.
pub open spec fn is_digit(c: char) -> bool {
    '0' <= c <= '9'
}

/// The identifier is made of digits only.
pub open spec fn numeric(ident: Seq<char>) -> bool {
    forall|i: int| 0 <= i < ident.len() ==> is_digit(#[trigger] ident[i])
}

/// Identifier `a` has lower precedence than identifier `b`.
pub open spec fn ident_less(a: Seq<char>, b: Seq<char>) -> bool {
    if numeric(a) && numeric(b) {
        a.len() < b.len() || (a.len() == b.len() && text_less(a, b))
    } else if numeric(a) {
        true
    } else if numeric(b) {
        false
    } else {
        text_less(a, b)
    }
}

/// The order of identifiers by precedence.
pub open spec fn ident_order() -> spec_fn(Seq<char>, Seq<char>) -> bool {
    |a: Seq<char>, b: Seq<char>| ident_less(a, b)
}

/// Pre-release tag `a` has lower precedence than tag `b`; the empty tag is
/// that of a release.
pub open spec fn pre_less(a: Seq<char>, b: Seq<char>) -> bool {
    if a.len() == 0 {
        false
    } else if b.len() == 0 {
        true
    } else {
        lex_less(split(a, '.'), split(b, '.'), ident_order())
    }
}

/// Version `a` has lower precedence than version `b`.
pub open spec fn precedes(a: Version, b: Version) -> bool {
    if a.major != b.major {
        a.major < b.major
    } else if a.minor != b.minor {
        a.minor < b.minor
    } else if a.patch != b.patch {
        a.patch < b.patch
    } else {
        pre_less(a.pre, b.pre)
    }
}

/// The order of characters is a strict total order.
pub proof fn lemma_char_order()
    ensures
        irreflexive(char_order()),
        transitive(char_order()),
        connected(char_order()),
{
    assert forall|x: char, y: char| !#[trigger] char_order()(x, y) && !char_order()(y, x) implies x
        == y by {
        assert(x as int == y as int);
    }
}

/// The order of identifiers is a strict total order.
pub proof fn lemma_ident_order()
    ensures
        irreflexive(ident_order()),
        transitive(ident_order()),
        connected(ident_order()),
{
    lemma_char_order();
    assert forall|x: Seq<char>| !#[trigger] ident_order()(x, x) by {
        lemma_lex_irreflexive(x, char_order());
    }
    assert forall|x: Seq<char>, y: Seq<char>, z: Seq<char>| #[trigger]
        ident_order()(x, y) && #[trigger] ident_order()(y, z) implies ident_order()(x, z) by {
        if text_less(x, y) && text_less(y, z) {
            lemma_lex_transitive(x, y, z, char_order());
        }
    }
    assert forall|x: Seq<char>, y: Seq<char>| !#[trigger] ident_order()(x, y) && !ident_order()(
        y,
        x,
    ) implies x == y by {
        if !text_less(x, y) && !text_less(y, x) {
            lemma_lex_connected(x, y, char_order());
        }
    }
}

/// Two texts with the same pieces are the same text.
pub proof fn lemma_split_injective(a: Seq<char>, b: Seq<char>, sep: char)
    requires
        split(a, sep) == split(b, sep),
    ensures
        a == b,
    decreases a.len(),
{
    let pieces = split(a, sep);
    if a.len() == 0 || b.len() == 0 {
        let (empty, other) = if a.len() == 0 {
            (a, b)
        } else {
            (b, a)
        };
        assert(split(empty, sep).len() == 1 && split(empty, sep)[0].len() == 0);
        if other.len() > 0 {
            let before = split(other.drop_last(), sep);
            lemma_split_nonempty(other.drop_last(), sep);
            if other.last() == sep {
                assert(split(other, sep).len() == before.len() + 1);
            } else {
                assert(split(other, sep).last().len() == before.last().len() + 1);
            }
            assert(false);
        }
        assert(a =~= b);
    } else {
        let before_a = split(a.drop_last(), sep);
        let before_b = split(b.drop_last(), sep);
        lemma_split_nonempty(a.drop_last(), sep);
        lemma_split_nonempty(b.drop_last(), sep);
        if a.last() == sep {
            assert(pieces.last().len() == 0);
            assert(b.last() == sep);
            assert(before_a =~= pieces.drop_last());
            assert(before_b =~= pieces.drop_last());
        } else {
            assert(pieces.last().len() > 0);
            assert(b.last() != sep);
            assert(pieces.last().last() == a.last());
            assert(pieces.last().last() == b.last());
            assert(before_a.drop_last() =~= pieces.drop_last());
            assert(before_b.drop_last() =~= pieces.drop_last());
            assert(before_a.last() =~= pieces.last().drop_last());
            assert(before_b.last() =~= pieces.last().drop_last());
            assert(before_a =~= before_a.drop_last().push(before_a.last()));
            assert(before_b =~= before_b.drop_last().push(before_b.last()));
            assert(before_a =~= before_b);
        }
        lemma_split_injective(a.drop_last(), b.drop_last(), sep);
        assert(a =~= a.drop_last().push(a.last()));
        assert(b =~= b.drop_last().push(b.last()));
    }
}

/// No version precedes itself.
pub proof fn lemma_precedes_irreflexive(a: Version)
    ensures
        !precedes(a, a),
{
    lemma_ident_order();
    lemma_lex_irreflexive(split(a.pre, '.'), ident_order());
}

/// Precedence is transitive.
pub proof fn lemma_precedes_transitive(a: Version, b: Version, c: Version)
    requires
        precedes(a, b),
        precedes(b, c),
    ensures
        precedes(a, c),
{
    lemma_ident_order();
    if a.pre.len() > 0 && b.pre.len() > 0 && c.pre.len() > 0 && pre_less(a.pre, b.pre) && pre_less(
        b.pre,
        c.pre,
    ) {
        lemma_lex_transitive(split(a.pre, '.'), split(b.pre, '.'), split(c.pre, '.'), ident_order());
    }
}

/// Of two different versions one precedes the other.
pub proof fn lemma_precedes_connected(a: Version, b: Version)
    requires
        !precedes(a, b),
        !precedes(b, a),
    ensures
        a == b,
{
    lemma_ident_order();
    if a.pre.len() > 0 && b.pre.len() > 0 {
        lemma_lex_connected(split(a.pre, '.'), split(b.pre, '.'), ident_order());
        lemma_split_injective(a.pre, b.pre, '.');
    } else {
        assert(a.pre =~= b.pre);
    }
}

/// Whether `a` comes before `b` as text.
pub fn text_before(a: &[char], b: &[char]) -> (r: bool)
    ensures
        r == text_less(a@, b@),
{
    let mut k: usize = 0;
    while k < a.len() && k < b.len()
        invariant
            common_prefix(a@, b@, k as int),
        decreases a.len() - k,
    {
        if a[k] != b[k] {
            let r = a[k] < b[k];
            proof {
                if r {
                    assert(differs_at(a@, b@, char_order(), k as int));
                } else {
                    assert forall|i: int| !differs_at(a@, b@, char_order(), i) by {
                        if differs_at(a@, b@, char_order(), i) {
                            if i < k {
                                assert(a@[i] == b@[i]);
                            } else if i > k {
                                assert(a@[k as int] == b@[k as int]);
                            }
                        }
                    }
                }
            }
            return r;
        }
        k += 1;
    }
    proof {
        if a.len() < b.len() {
            assert(differs_at(a@, b@, char_order(), k as int));
        } else {
            assert forall|i: int| !differs_at(a@, b@, char_order(), i) by {
                if differs_at(a@, b@, char_order(), i) {
                    assert(a@[i] == b@[i]);
                }
            }
        }
    }
    a.len() < b.len()
}

/// Whether the identifier is made of digits only.
pub fn all_digits(ident: &[char]) -> (r: bool)
    ensures
        r == numeric(ident@),
{
    let mut i: usize = 0;
    while i < ident.len()
        invariant
            i <= ident.len(),
            forall|k: int| 0 <= k < i ==> is_digit(#[trigger] ident@[k]),
        decreases ident.len() - i,
    {
        let c = ident[i];
        if !('0' <= c && c <= '9') {
            assert(!is_digit(ident@[i as int]));
            return false;
        }
        i += 1;
    }
    true
}

/// Whether identifier `a` has lower precedence than identifier `b`.
pub fn ident_before(a: &[char], b: &[char]) -> (r: bool)
    ensures
        r == ident_less(a@, b@),
{
    let a_numeric = all_digits(a);
    let b_numeric = all_digits(b);
    if a_numeric && b_numeric {
        a.len() < b.len() || (a.len() == b.len() && text_before(a, b))
    } else if a_numeric {
        true
    } else if b_numeric {
        false
    } else {
        text_before(a, b)
    }
}

/// Whether the identifiers `a` come before the identifiers `b`.
pub fn idents_before(a: &Vec<Vec<char>>, b: &Vec<Vec<char>>) -> (r: bool)
    ensures
        r == lex_less(rows(a@), rows(b@), ident_order()),
{
    let ghost x = rows(a@);
    let ghost y = rows(b@);
    proof {
        lemma_ident_order();
    }
    let mut k: usize = 0;
    while k < a.len() && k < b.len()
        invariant
            x == rows(a@),
            y == rows(b@),
            common_prefix(x, y, k as int),
            irreflexive(ident_order()),
        decreases a.len() - k,
    {
        if !same_chars(a[k].as_slice(), b[k].as_slice()) {
            let r = ident_before(a[k].as_slice(), b[k].as_slice());
            proof {
                assert(x[k as int] != y[k as int]);
                if r {
                    assert(differs_at(x, y, ident_order(), k as int));
                } else {
                    assert forall|i: int| !differs_at(x, y, ident_order(), i) by {
                        if differs_at(x, y, ident_order(), i) {
                            if i < k {
                                assert(x[i] == y[i]);
                                assert(!ident_order()(x[i], x[i]));
                            } else if i > k {
                                assert(x[k as int] == y[k as int]);
                            }
                        }
                    }
                }
            }
            return r;
        }
        k += 1;
    }
    proof {
        if a.len() < b.len() {
            assert(differs_at(x, y, ident_order(), k as int));
        } else {
            assert forall|i: int| !differs_at(x, y, ident_order(), i) by {
                if differs_at(x, y, ident_order(), i) {
                    assert(x[i] == y[i]);
                    assert(!ident_order()(x[i], x[i]));
                }
            }
        }
    }
    a.len() < b.len()
}

/// Whether pre-release tag `a` has lower precedence than tag `b`.
pub fn pre_before(a: &str, b: &str) -> (r: bool)
    ensures
        r == pre_less(a@, b@),
{
    let a_chars = chars_of(a);
    let b_chars = chars_of(b);
    if a_chars.len() == 0 {
        false
    } else if b_chars.len() == 0 {
        true
    } else {
        let a_idents = split_chars(a_chars.as_slice(), '.');
        let b_idents = split_chars(b_chars.as_slice(), '.');
        idents_before(&a_idents, &b_idents)
    }
}

impl SemVer {
    /// Whether this version has lower precedence than `other`.
    pub fn precedes(&self, other: &SemVer) -> (r: bool)
        ensures
            r == precedes(self@, other@),
    {
        if self.major != other.major {
            self.major < other.major
        } else if self.minor != other.minor {
            self.minor < other.minor
        } else if self.patch != other.patch {
            self.patch < other.patch
        } else {
            pre_before(self.pre.as_str(), other.pre.as_str())
        }
    }
}

} // verus!
