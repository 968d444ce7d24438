//! Recovering the source line of a declared dependency.
//!
//! A structural decoder hands out names and constraints without positions.
//! The line of a dependency is found again in the raw text: the text is cut
//! into lines, a bracket/brace depth is tracked across them, and the line is
//! looked for between the line that holds the block's key and the line on
//! which the depth is back at what it was before that key.

use vstd::prelude::*;
use crate::text::{contains, contains_chars, lemma_split_nonempty, rows, split, split_chars};

verus! {

/// Where a scan stands inside one line: the nesting depth, whether it is
/// inside a string literal, and whether the last character was a backslash
/// inside that literal.
pub struct Cursor {
    pub depth: nat,
    pub in_string: bool,
    pub escaped: bool,
}

/// The cursor after reading `c`. Brackets and braces count only outside
/// string literals; a closing one at depth 0 leaves the depth at 0.
pub open spec fn step(at: Cursor, c: char) -> Cursor {
    if at.in_string {
        if at.escaped {
            Cursor { escaped: false, ..at }
        } else if c == '\\' {
            Cursor { escaped: true, ..at }
        } else if c == '"' {
            Cursor { in_string: false, ..at }
        } else {
            at
        }
    } else if c == '"' {
        Cursor { in_string: true, ..at }
    } else if c == '{' || c == '[' {
        Cursor { depth: at.depth + 1, ..at }
    } else if (c == '}' || c == ']') && at.depth > 0 {
        Cursor { depth: (at.depth - 1) as nat, ..at }
    } else {
        at
    }
}

/// The cursor after reading all of `line`, entered at `depth` outside any
/// string literal.
pub open spec fn scan_line(line: Seq<char>, depth: nat) -> Cursor
    decreases line.len(),
{
    if line.len() == 0 {
        Cursor { depth, in_string: false, escaped: false }
    } else {
        step(scan_line(line.drop_last(), depth), line.last())
    }
}

/// The nesting depth at the start of line `k` (0-based); the first line
/// starts at depth 0.
pub open spec fn depth_before(lines: Seq<Seq<char>>, k: int) -> nat
    decreases k,
{
    if k <= 0 {
        0
    } else {
        scan_line(lines[k - 1], depth_before(lines, k - 1)).depth
    }
}

/// The text that declares a block: its name in double quotes, then a colon.
pub open spec fn block_key(block: Seq<char>) -> Seq<char> {
    seq!['"'] + block + seq!['"', ':']
}

/// A name as it stands in the text: in double quotes.
pub open spec fn quoted(name: Seq<char>) -> Seq<char> {
    seq!['"'] + name + seq!['"']
}

/// Line `s` is the first line that holds the key of `block`.
pub open spec fn is_key_line(lines: Seq<Seq<char>>, block: Seq<char>, s: int) -> bool {
    &&& 0 <= s < lines.len()
    &&& contains(lines[s], block_key(block))
    &&& forall|k: int| 0 <= k < s ==> !contains(#[trigger] lines[k], block_key(block))
}

/// Line `j` lies in the block opened on line `s`: it comes after `s`, and
/// every line from `s + 1` to `j` starts deeper than line `s` did.
pub open spec fn inside_block(lines: Seq<Seq<char>>, s: int, j: int) -> bool {
    &&& 0 <= s < j < lines.len()
    &&& forall|k: int| s < k <= j ==> #[trigger] depth_before(lines, k) > depth_before(lines, s)
}

/// Line `j` is the first line of the block opened on line `s` that holds
/// `name` in quotes.
pub open spec fn is_located(lines: Seq<Seq<char>>, s: int, name: Seq<char>, j: int) -> bool {
    &&& inside_block(lines, s, j)
    &&& contains(lines[j], quoted(name))
    &&& forall|i: int| s < i < j ==> !contains(#[trigger] lines[i], quoted(name))
}

/// The first line that holds the key of `block`, if there is one.
pub open spec fn key_line(lines: Seq<Seq<char>>, block: Seq<char>) -> Option<int> {
    if exists|s: int| is_key_line(lines, block, s) {
        Some(choose|s: int| is_key_line(lines, block, s))
    } else {
        None
    }
}

/// The 0-based line on which `name` is declared in `block`, if it can be
/// found.
pub open spec fn located_line(lines: Seq<Seq<char>>, block: Seq<char>, name: Seq<char>) -> Option<
    int,
> {
    match key_line(lines, block) {
        None => None,
        Some(s) => first_in_block(lines, s, name),
    }
}

/// The first line of the block opened on line `s` that holds `name` in
/// quotes, if there is one.
pub open spec fn first_in_block(lines: Seq<Seq<char>>, s: int, name: Seq<char>) -> Option<int> {
    if exists|j: int| is_located(lines, s, name, j) {
        Some(choose|j: int| is_located(lines, s, name, j))
    } else {
        None
    }
}

/// At most one line is the key line of a block.
pub proof fn lemma_key_line_unique(lines: Seq<Seq<char>>, block: Seq<char>, s: int, t: int)
    requires
        is_key_line(lines, block, s),
        is_key_line(lines, block, t),
    ensures
        s == t,
{
    if s < t {
        assert(!contains(lines[s], block_key(block)));
    } else if t < s {
        assert(!contains(lines[t], block_key(block)));
    }
}

/// At most one line is where a name is located in a block.
pub proof fn lemma_located_unique(lines: Seq<Seq<char>>, s: int, name: Seq<char>, i: int, j: int)
    requires
        is_located(lines, s, name, i),
        is_located(lines, s, name, j),
    ensures
        i == j,
{
    if i < j {
        assert(!contains(lines[i], quoted(name)));
    } else if j < i {
        assert(!contains(lines[j], quoted(name)));
    }
}

/// The text of a document cut into lines, with the depth at which each line
/// starts.
pub struct LineTable {
    lines: Vec<Vec<char>>,
    depths: Vec<usize>,
}

impl LineTable {
    /// The lines as character sequences.
    pub closed spec fn view(&self) -> Seq<Seq<char>> {
        rows(self.lines@)
    }

    /// `depths` holds the depth before each line.
    #[verifier::type_invariant]
    spec fn wf(&self) -> bool {
        &&& self.depths@.len() == self.lines@.len()
        &&& forall|k: int|
            0 <= k < self.depths@.len() ==> #[trigger] self.depths@[k] as nat == depth_before(
                self@,
                k,
            )
    }

    /// Cuts `text` at every line feed and tracks the depth across the lines.
    pub fn new(text: &[char]) -> (table: LineTable)
        ensures
            table@ == split(text@, '\n'),
    {
        let lines = split_chars(text, '\n');
        let mut depths: Vec<usize> = Vec::new();
        let mut depth: usize = 0;
        let mut k: usize = 0;
        let size: usize = text.len();
        proof {
            lemma_split_total(text@, '\n');
            lemma_split_nonempty(text@, '\n');
            assert(total_len(rows(lines@)) <= size);
            assert(rows(lines@).take(0) =~= Seq::<Seq<char>>::empty());
        }
        while k < lines.len()
            invariant
                k <= lines.len(),
                depths@.len() == k,
                depth as nat == depth_before(rows(lines@), k as int),
                forall|i: int|
                    0 <= i < k ==> #[trigger] depths@[i] as nat == depth_before(rows(lines@), i),
                depth <= total_len(rows(lines@).take(k as int)),
                total_len(rows(lines@)) <= usize::MAX,
            decreases lines.len() - k,
        {
            depths.push(depth);
            let line = &lines[k];
            proof {
                let all = rows(lines@);
                lemma_total_len_prefix(all, k + 1);
                assert(all.take(k + 1).drop_last() =~= all.take(k as int));
                assert(all.take(k + 1).last() == line@);
            }
            depth = scan_depth(line.as_slice(), depth);
            k += 1;
        }
        LineTable { lines, depths }
    }

    /// The first line that holds the key of `block`.
    fn find_key_line(&self, block: &[char]) -> (r: Option<usize>)
        ensures
            match r {
                Some(s) => key_line(self@, block@) == Some(s as int),
                None => key_line(self@, block@).is_none(),
            },
    {
        let mut key: Vec<char> = Vec::new();
        key.push('"');
        let mut i: usize = 0;
        while i < block.len()
            invariant
                i <= block.len(),
                key@ == seq!['"'] + block@.take(i as int),
            decreases block.len() - i,
        {
            key.push(block[i]);
            i += 1;
        }
        key.push('"');
        key.push(':');
        proof {
            assert(block@.take(block@.len() as int) =~= block@);
            assert(key@ =~= block_key(block@));
        }
        let mut s: usize = 0;
        while s < self.lines.len()
            invariant
                s <= self.lines.len(),
                key@ == block_key(block@),
                forall|k: int| 0 <= k < s ==> !contains(#[trigger] self@[k], block_key(block@)),
            decreases self.lines.len() - s,
        {
            if contains_chars(self.lines[s].as_slice(), key.as_slice()) {
                proof {
                    assert(is_key_line(self@, block@, s as int));
                    let t = choose|t: int| is_key_line(self@, block@, t);
                    lemma_key_line_unique(self@, block@, s as int, t);
                }
                return Some(s);
            }
            s += 1;
        }
        proof {
            assert forall|t: int| !is_key_line(self@, block@, t) by {
                if 0 <= t < self@.len() {
                    assert(!contains(self@[t], block_key(block@)));
                }
            }
        }
        None
    }

    /// The first line of the block opened on line `s` that holds `name` in
    /// quotes.
    fn find_in_block(&self, s: usize, name: &[char]) -> (r: Option<usize>)
        requires
            s < self@.len(),
        ensures
            match r {
                Some(j) => is_located(self@, s as int, name@, j as int),
                None => forall|j: int| !is_located(self@, s as int, name@, j),
            },
    {
        let mut needle: Vec<char> = Vec::new();
        needle.push('"');
        let mut i: usize = 0;
        while i < name.len()
            invariant
                i <= name.len(),
                needle@ == seq!['"'] + name@.take(i as int),
            decreases name.len() - i,
        {
            needle.push(name[i]);
            i += 1;
        }
        needle.push('"');
        proof {
            assert(name@.take(name@.len() as int) =~= name@);
            assert(needle@ =~= quoted(name@));
        }
        proof {
            use_type_invariant(self);
        }
        let open_depth = self.depths[s];
        let count: usize = self.lines.len();
        let mut j: usize = s + 1;
        while j < self.lines.len()
            invariant
                self.wf(),
                s < j <= self.lines.len(),
                open_depth as nat == depth_before(self@, s as int),
                needle@ == quoted(name@),
                forall|k: int|
                    s < k < j ==> #[trigger] depth_before(self@, k) > depth_before(self@, s as int),
                forall|i: int| s < i < j ==> !contains(#[trigger] self@[i], quoted(name@)),
            decreases self.lines.len() - j,
        {
            if self.depths[j] <= open_depth {
                proof {
                    assert forall|t: int| !is_located(self@, s as int, name@, t) by {
                        if is_located(self@, s as int, name@, t) {
                            if t >= j {
                                assert(depth_before(self@, j as int) > depth_before(
                                    self@,
                                    s as int,
                                ));
                            } else {
                                assert(!contains(self@[t], quoted(name@)));
                            }
                        }
                    }
                }
                return None;
            }
            if contains_chars(self.lines[j].as_slice(), needle.as_slice()) {
                return Some(j);
            }
            j += 1;
        }
        proof {
            assert forall|t: int| !is_located(self@, s as int, name@, t) by {
                if is_located(self@, s as int, name@, t) {
                    assert(!contains(self@[t], quoted(name@)));
                }
            }
        }
        None
    }

    /// The 0-based line on which `name` is declared in `block`.
    pub fn locate(&self, block: &[char], name: &[char]) -> (r: Option<usize>)
        ensures
            match r {
                Some(j) => located_line(self@, block@, name@) == Some(j as int),
                None => located_line(self@, block@, name@).is_none(),
            },
    {
        match self.find_key_line(block) {
            None => None,
            Some(s) => {
                let r = self.find_in_block(s, name);
                proof {
                    if let Some(j) = r {
                        let c = choose|c: int| is_located(self@, s as int, name@, c);
                        lemma_located_unique(self@, s as int, name@, j as int, c);
                    }
                }
                r
            },
        }
    }
}

/// The number of characters in all of `pieces`.
pub open spec fn total_len(pieces: Seq<Seq<char>>) -> nat
    decreases pieces.len(),
{
    if pieces.len() == 0 {
        0
    } else {
        total_len(pieces.drop_last()) + pieces.last().len()
    }
}

/// The pieces of a split and the separators between them make up the text.
pub proof fn lemma_split_total(s: Seq<char>, sep: char)
    ensures
        total_len(split(s, sep)) + split(s, sep).len() == s.len() + 1,
    decreases s.len(),
{
    if s.len() == 0 {
        let one = seq![Seq::<char>::empty()];
        assert(one.drop_last() =~= Seq::<Seq<char>>::empty());
        assert(total_len(one.drop_last()) == 0);
    } else {
        let before = split(s.drop_last(), sep);
        lemma_split_total(s.drop_last(), sep);
        lemma_split_nonempty(s.drop_last(), sep);
        if s.last() == sep {
            let after = before.push(Seq::<char>::empty());
            assert(after.drop_last() =~= before);
        } else {
            let grown = before.last().push(s.last());
            let after = before.drop_last().push(grown);
            assert(after.drop_last() =~= before.drop_last());
        }
    }
}

/// A prefix of the pieces holds no more characters than all of them.
pub proof fn lemma_total_len_prefix(pieces: Seq<Seq<char>>, k: int)
    requires
        0 <= k <= pieces.len(),
    ensures
        total_len(pieces.take(k)) <= total_len(pieces),
    decreases pieces.len() - k,
{
    if k == pieces.len() {
        assert(pieces.take(k) =~= pieces);
    } else {
        lemma_total_len_prefix(pieces, k + 1);
        assert(pieces.take(k + 1).drop_last() =~= pieces.take(k));
    }
}

/// The depth after reading `line` entered at `depth`.
fn scan_depth(line: &[char], depth: usize) -> (r: usize)
    requires
        depth + line@.len() <= usize::MAX,
    ensures
        r as nat == scan_line(line@, depth as nat).depth,
        r <= depth + line@.len(),
{
    let mut d: usize = depth;
    let mut in_string = false;
    let mut escaped = false;
    let mut i: usize = 0;
    proof {
        assert(line@.take(0) =~= Seq::<char>::empty());
    }
    while i < line.len()
        invariant
            i <= line.len(),
            d <= depth + i,
            depth + line@.len() <= usize::MAX,
            scan_line(line@.take(i as int), depth as nat) == (Cursor {
                depth: d as nat,
                in_string,
                escaped,
            }),
        decreases line.len() - i,
    {
        let c = line[i];
        proof {
            let next = line@.take(i + 1);
            assert(next.drop_last() =~= line@.take(i as int));
            assert(next.last() == c);
        }
        if in_string {
            if escaped {
                escaped = false;
            } else if c == '\\' {
                escaped = true;
            } else if c == '"' {
                in_string = false;
            }
        } else if c == '"' {
            in_string = true;
        } else if c == '{' || c == '[' {
            d += 1;
        } else if (c == '}' || c == ']') && d > 0 {
            d -= 1;
        }
        i += 1;
    }
    proof {
        assert(line@.take(line@.len() as int) =~= line@);
    }
    d
}

} // verus!
