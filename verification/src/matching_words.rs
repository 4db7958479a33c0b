//! Post-hoc fuzzy matcher used to highlight result snippets: collects the
//! matchable words of a query tree, evaluates a Levenshtein automaton per
//! word (longest words first), and computes how much of a matched token to
//! highlight with a bounded Damerau-Levenshtein alignment.

use vstd::prelude::*;
use vstd::string::StrSliceExecFns;

verus! {

/// Longest word, in characters, the highlighter aligns; keeps the dynamic
/// program's table size and every distance sum within machine integers.
pub const MAX_HIGHLIGHT_LEN: usize = 30000;

/// Byte length of one character when encoded as UTF-8.
pub open spec fn char_utf8_len(c: char) -> int {
    if (c as u32) < 0x80 {
        1
    } else if (c as u32) < 0x800 {
        2
    } else if (c as u32) < 0x10000 {
        3
    } else {
        4
    }
}

/// Byte length of the first `k` characters of `s` when encoded as UTF-8.
pub open spec fn bytes_of_prefix(s: Seq<char>, k: int) -> int
    decreases k,
{
    if k <= 0 {
        0
    } else {
        bytes_of_prefix(s, k - 1) + char_utf8_len(s[k - 1])
    }
}

pub proof fn lemma_bytes_of_prefix_bounds(s: Seq<char>, k: int)
    requires
        0 <= k,
    ensures
        k <= bytes_of_prefix(s, k) <= 4 * k,
    decreases k,
{
    if k > 0 {
        lemma_bytes_of_prefix_bounds(s, k - 1);
    }
}

fn char_len_utf8(c: char) -> (r: usize)
    ensures
        r == char_utf8_len(c),
{
    let u = c as u32;
    if u < 0x80 {
        1
    } else if u < 0x800 {
        2
    } else if u < 0x10000 {
        3
    } else {
        4
    }
}

/// The characters of `s`, in order.
fn chars_vec(s: &str) -> (v: Vec<char>)
    ensures
        v@ == s@,
{
    let n = s.unicode_len();
    let mut v: Vec<char> = Vec::new();
    let mut k: usize = 0;
    while k < n
        invariant
            n == s@.len(),
            k <= n,
            v@.len() == k,
            forall|i: int| 0 <= i < k ==> v@[i] == s@[i],
        decreases n - k,
    {
        v.push(s.get_char(k));
        k += 1;
    }
    proof {
        assert(v@ =~= s@);
    }
    v
}

/// Byte length of the first `k` characters (all of them where `k` exceeds
/// the word).
fn prefix_bytes(chars: &Vec<char>, k: usize) -> (r: usize)
    requires
        chars@.len() <= MAX_HIGHLIGHT_LEN,
    ensures
        r == bytes_of_prefix(chars@, if k <= chars@.len() {
            k as int
        } else {
            chars@.len() as int
        }),
{
    let n = chars.len();
    let take = if k < n {
        k
    } else {
        n
    };
    let mut total: usize = 0;
    let mut i: usize = 0;
    while i < take
        invariant
            take <= n == chars@.len() <= MAX_HIGHLIGHT_LEN,
            i <= take,
            total == bytes_of_prefix(chars@, i as int),
        decreases take - i,
    {
        proof {
            lemma_bytes_of_prefix_bounds(chars@, i as int);
        }
        total = total + char_len_utf8(chars[i]);
        i += 1;
    }
    total
}

/// A contiguous table indexed like a two-dimensional array.
struct N2Array {
    x_size: usize,
    y_size: usize,
    buf: Vec<usize>,
}

impl N2Array {
    spec fn wf(&self) -> bool {
        &&& self.buf@.len() == self.x_size * self.y_size
        &&& self.x_size * self.y_size <= 0x4000_0000
    }

    spec fn at(&self, x: int, y: int) -> int {
        self.buf@[x * self.y_size + y] as int
    }

    proof fn lemma_flat_index(&self, x: int, y: int)
        requires
            self.wf(),
            0 <= x < self.x_size,
            0 <= y < self.y_size,
        ensures
            0 <= x * self.y_size + y < self.buf@.len(),
    {
        assert(0 <= x * self.y_size + y < self.x_size * self.y_size) by (nonlinear_arith)
            requires
                0 <= x < self.x_size,
                0 <= y < self.y_size,
        ;
    }

    fn new(x: usize, y: usize, value: usize) -> (r: N2Array)
        requires
            x * y <= 0x4000_0000,
        ensures
            r.wf(),
            r.x_size == x,
            r.y_size == y,
            forall|i: int, j: int| 0 <= i < x && 0 <= j < y ==> r.at(i, j) == value,
    {
        let total = x * y;
        let mut buf: Vec<usize> = Vec::new();
        let mut k: usize = 0;
        while k < total
            invariant
                k <= total,
                buf@.len() == k,
                forall|i: int| 0 <= i < k ==> buf@[i] == value,
            decreases total - k,
        {
            buf.push(value);
            k += 1;
        }
        let r = N2Array { x_size: x, y_size: y, buf };
        proof {
            assert forall|i: int, j: int| 0 <= i < x && 0 <= j < y implies r.at(i, j) == value by {
                r.lemma_flat_index(i, j);
            }
        }
        r
    }

    fn get(&self, x: usize, y: usize) -> (r: usize)
        requires
            self.wf(),
            x < self.x_size,
            y < self.y_size,
        ensures
            r == self.at(x as int, y as int),
    {
        proof {
            self.lemma_flat_index(x as int, y as int);
        }
        self.buf[x * self.y_size + y]
    }

    fn set(&mut self, x: usize, y: usize, value: usize)
        requires
            old(self).wf(),
            x < old(self).x_size,
            y < old(self).y_size,
        ensures
            final(self).wf(),
            final(self).x_size == old(self).x_size,
            final(self).y_size == old(self).y_size,
            final(self).at(x as int, y as int) == value,
            forall|i: int, j: int|
                0 <= i < final(self).x_size && 0 <= j < final(self).y_size && !(i == x && j == y)
                    ==> final(self).at(i, j) == old(self).at(i, j),
    {
        proof {
            self.lemma_flat_index(x as int, y as int);
        }
        let idx = x * self.y_size + y;
        self.buf.set(idx, value);
        proof {
            assert forall|i: int, j: int|
                0 <= i < self.x_size && 0 <= j < self.y_size && !(i == x && j == y) implies self.at(
                i,
                j,
            ) == old(self).at(i, j) by {
                self.lemma_flat_index(i, j);
                assert(i * self.y_size + j != x * self.y_size + y) by (nonlinear_arith)
                    requires
                        0 <= i < self.x_size,
                        0 <= j < self.y_size,
                        0 <= x < self.x_size,
                        0 <= y < self.y_size,
                        !(i == x && j == y),
                ;
            }
        }
    }
}

/// Association list giving, per target character, the last source row where
/// it matched.
fn assoc_get(v: &Vec<(char, usize)>, c: char) -> (r: usize)
    ensures
        r == 0 || exists|j: int| 0 <= j < v@.len() && (#[trigger] v@[j]) == (c, r),
{
    let n = v.len();
    let mut k: usize = 0;
    while k < n
        invariant
            n == v@.len(),
            k <= n,
        decreases n - k,
    {
        let pair = v[k];
        if pair.0 == c {
            proof {
                assert(v@[k as int] == (c, pair.1));
            }
            if pair.1 == 0 {
                return 0;
            }
            return pair.1;
        }
        k += 1;
    }
    0
}

fn assoc_set(v: &mut Vec<(char, usize)>, c: char, row: usize)
    ensures
        forall|j: int|
            0 <= j < final(v)@.len() ==> ((#[trigger] final(v)@[j]).1 <= row || exists|i: int|
                0 <= i < old(v)@.len() && old(v)@[i] == final(v)@[j]),
{
    let n = v.len();
    let mut k: usize = 0;
    while k < n
        invariant
            v@ == old(v)@,
            n == v@.len(),
            k <= n,
        decreases n - k,
    {
        if v[k].0 == c {
            v.set(k, (c, row));
            proof {
                assert forall|j: int| 0 <= j < v@.len() implies ((#[trigger] v@[j]).1 <= row
                    || exists|i: int| 0 <= i < old(v)@.len() && old(v)@[i] == v@[j]) by {
                    if j != k {
                        assert(old(v)@[j] == v@[j]);
                    }
                }
            }
            return ;
        }
        k += 1;
    }
    v.push((c, row));
    proof {
        assert forall|j: int| 0 <= j < v@.len() implies ((#[trigger] v@[j]).1 <= row || exists|
            i: int,
        | 0 <= i < old(v)@.len() && old(v)@[i] == v@[j]) by {
            if j < old(v)@.len() {
                assert(old(v)@[j] == v@[j]);
            } else {
                assert(v@[j] == (c, row));
            }
        }
    }
}

/// Returns the number of bytes to highlight in `source` when it matched the
/// query word `target`: the longest character prefix of `source` that stays
/// within two edits of `target` under a bounded Damerau-Levenshtein
/// alignment, converted back to a byte count. Degenerate inputs short-cut:
/// an empty source highlights nothing; a target of fewer than three
/// characters highlights the first `min(source, target)` characters; equal
/// strings highlight the whole source.
pub fn bytes_to_highlight(source: &str, target: &str) -> (r: usize)
    requires
        source@.len() <= MAX_HIGHLIGHT_LEN,
        target@.len() <= MAX_HIGHLIGHT_LEN,
    ensures
        source@.len() == 0 ==> r == 0,
        (source@.len() > 0 && target@.len() < 3) ==> r == bytes_of_prefix(
            source@,
            if target@.len() <= source@.len() {
                target@.len() as int
            } else {
                source@.len() as int
            },
        ),
        (source@.len() == target@.len() && source@ == target@) ==> r == bytes_of_prefix(
            source@,
            source@.len() as int,
        ),
        exists|k: int| 0 <= k <= source@.len() && r == bytes_of_prefix(source@, k),
{
    let source_chars = chars_vec(source);
    let target_chars = chars_vec(target);
    let n = source_chars.len();
    let m = target_chars.len();

    if n == 0 {
        proof {
            assert(bytes_of_prefix(source@, 0) == 0);
        }
        return 0;
    }
    // Two typos are allowed in any case: a very short target is sent back
    // whole, clipped to the source.
    if m < 3 {
        let r = prefix_bytes(&source_chars, m);
        proof {
            let k = if m <= n {
                m as int
            } else {
                n as int
            };
            assert(r == bytes_of_prefix(source@, k));
        }
        return r;
    }
    if n == m && str_eq(source, target) {
        let r = prefix_bytes(&source_chars, n);
        return r;
    }

    let inf = n + m;
    let ghost cap = inf as int;
    proof {
        assert((n + 2) * (m + 2) <= 0x4000_0000) by (nonlinear_arith)
            requires
                0 < n <= MAX_HIGHLIGHT_LEN,
                3 <= m <= MAX_HIGHLIGHT_LEN,
        ;
    }
    let mut matrix = N2Array::new(n + 2, m + 2, 0);

    matrix.set(0, 0, inf);
    let mut i: usize = 0;
    while i <= n
        invariant
            matrix.wf(),
            matrix.x_size == n + 2,
            matrix.y_size == m + 2,
            3 <= m <= MAX_HIGHLIGHT_LEN,
            0 < n <= MAX_HIGHLIGHT_LEN,
            inf == n + m,
            cap == inf,
            i <= n + 1,
            forall|a: int, b: int|
                0 <= a < n + 2 && 0 <= b < m + 2 ==> matrix.at(a, b) <= cap + a,
        decreases n + 1 - i,
    {
        let ghost pre = matrix;
        matrix.set(i + 1, 0, inf);
        let ghost mid = matrix;
        matrix.set(i + 1, 1, i);
        proof {
            assert forall|a: int, b: int| 0 <= a < n + 2 && 0 <= b < m + 2 implies matrix.at(a, b)
                <= cap + a by {
                if a == i + 1 && b == 1 {
                } else if a == i + 1 && b == 0 {
                    assert(matrix.at(a, b) == mid.at(a, b));
                } else {
                    assert(matrix.at(a, b) == mid.at(a, b));
                    assert(mid.at(a, b) == pre.at(a, b));
                }
            }
        }
        i += 1;
    }
    let mut j: usize = 0;
    while j <= m
        invariant
            matrix.wf(),
            matrix.x_size == n + 2,
            matrix.y_size == m + 2,
            3 <= m <= MAX_HIGHLIGHT_LEN,
            0 < n <= MAX_HIGHLIGHT_LEN,
            inf == n + m,
            cap == inf,
            j <= m + 1,
            forall|a: int, b: int|
                0 <= a < n + 2 && 0 <= b < m + 2 ==> matrix.at(a, b) <= cap + a,
        decreases m + 1 - j,
    {
        let ghost pre = matrix;
        matrix.set(0, j + 1, inf);
        let ghost mid = matrix;
        matrix.set(1, j + 1, j);
        proof {
            assert forall|a: int, b: int| 0 <= a < n + 2 && 0 <= b < m + 2 implies matrix.at(a, b)
                <= cap + a by {
                if a == 1 && b == j + 1 {
                } else if a == 0 && b == j + 1 {
                    assert(matrix.at(a, b) == mid.at(a, b));
                } else {
                    assert(matrix.at(a, b) == mid.at(a, b));
                    assert(mid.at(a, b) == pre.at(a, b));
                }
            }
        }
        j += 1;
    }

    let mut last_row: Vec<(char, usize)> = Vec::new();

    let mut row: usize = 1;
    while row <= n
        invariant
            matrix.wf(),
            matrix.x_size == n + 2,
            matrix.y_size == m + 2,
            3 <= m <= MAX_HIGHLIGHT_LEN,
            0 < n <= MAX_HIGHLIGHT_LEN,
            inf == n + m,
            cap == inf,
            1 <= row <= n + 1,
            n == source_chars@.len(),
            m == target_chars@.len(),
            forall|a: int, b: int|
                0 <= a < n + 2 && 0 <= b < m + 2 ==> matrix.at(a, b) <= cap + a,
            forall|j2: int| 0 <= j2 < last_row@.len() ==> (#[trigger] last_row@[j2]).1 < row,
        decreases n + 1 - row,
    {
        let char_s = source_chars[row - 1];
        let mut last_match_col: usize = 0;

        let mut col: usize = 1;
        while col <= m
            invariant
                matrix.wf(),
                matrix.x_size == n + 2,
                matrix.y_size == m + 2,
                3 <= m <= MAX_HIGHLIGHT_LEN,
                0 < n <= MAX_HIGHLIGHT_LEN,
                inf == n + m,
            cap == inf,
                1 <= row <= n,
                1 <= col <= m + 1,
                n == source_chars@.len(),
                m == target_chars@.len(),
                last_match_col < col,
                forall|a: int, b: int|
                    0 <= a < n + 2 && 0 <= b < m + 2 ==> matrix.at(a, b) <= cap + a,
                forall|j2: int| 0 <= j2 < last_row@.len() ==> (#[trigger] last_row@[j2]).1 < row,
            decreases m + 1 - col,
        {
            let char_t = target_chars[col - 1];
            let last_match_row = assoc_get(&last_row, char_t);
            proof {
                if last_match_row != 0 {
                    let j2 = choose|j2: int|
                        0 <= j2 < last_row@.len() && (#[trigger] last_row@[j2]) == (
                        char_t,
                        last_match_row,
                        );
                }
                assert(last_match_row < row);
            }
            let cost: usize = if char_s == char_t {
                0
            } else {
                1
            };

            proof {
                assert(matrix.at(row as int, col + 1) <= cap + row);
                assert(matrix.at(row + 1, col as int) <= cap + row + 1);
                assert(matrix.at(row as int, col as int) <= cap + row);
                assert(matrix.at(last_match_row as int, last_match_col as int) <= cap
                    + last_match_row);
            }
            let dist_add = matrix.get(row, col + 1) + 1;
            let dist_del = matrix.get(row + 1, col) + 1;
            let dist_sub = matrix.get(row, col) + cost;
            let dist_trans = matrix.get(last_match_row, last_match_col) + (row - last_match_row
                - 1) + 1 + (col - last_match_col - 1);
            let dist = min_usize(min_usize(dist_add, dist_del), min_usize(dist_sub, dist_trans));
            let ghost pre = matrix;
            matrix.set(row + 1, col + 1, dist);
            proof {
                assert(dist <= cap + row + 1);
                assert forall|a: int, b: int| 0 <= a < n + 2 && 0 <= b < m + 2 implies matrix.at(
                    a,
                    b,
                ) <= cap + a by {
                    if !(a == row + 1 && b == col + 1) {
                        assert(matrix.at(a, b) == pre.at(a, b));
                    }
                }
            }

            if cost == 0 {
                last_match_col = col;
            }
            col += 1;
        }

        let ghost pre_rows = last_row@;
        assoc_set(&mut last_row, char_s, row);
        proof {
            assert forall|j2: int| 0 <= j2 < last_row@.len() implies (#[trigger] last_row@[j2]).1
                < row + 1 by {
                if last_row@[j2].1 > row {
                    let i2 = choose|i2: int|
                        0 <= i2 < pre_rows.len() && pre_rows[i2] == last_row@[j2];
                    assert(pre_rows[i2].1 < row);
                }
            }
        }
        row += 1;
    }

    let mut best_dist: usize = usize::MAX;
    let mut best_idx: usize = 0;
    let mut x: usize = 0;
    while x <= m
        invariant
            matrix.wf(),
            matrix.x_size == n + 2,
            matrix.y_size == m + 2,
            x <= m + 1,
            best_idx <= m,
            0 < n,
            3 <= m,
        decreases m + 1 - x,
    {
        let dist = matrix.get(n + 1, x + 1);
        if dist < best_dist {
            best_dist = dist;
            best_idx = x;
        }
        x += 1;
    }

    let r = prefix_bytes(&source_chars, best_idx);
    proof {
        let k = if best_idx <= n {
            best_idx as int
        } else {
            n as int
        };
        assert(r == bytes_of_prefix(source@, k));
    }
    r
}

fn min_usize(a: usize, b: usize) -> (r: usize)
    ensures
        r == if a <= b {
            a
        } else {
            b
        },
{
    if a <= b {
        a
    } else {
        b
    }
}

/// True when the two strings hold the same characters.
pub fn str_eq(a: &str, b: &str) -> (r: bool)
    ensures
        r == (a@ == b@),
{
    let na = a.unicode_len();
    let nb = b.unicode_len();
    if na != nb {
        return false;
    }
    let mut k: usize = 0;
    while k < na
        invariant
            na == a@.len(),
            na == b@.len(),
            k <= na,
            forall|i: int| 0 <= i < k ==> a@[i] == b@[i],
        decreases na - k,
    {
        if a.get_char(k) != b.get_char(k) {
            return false;
        }
        k += 1;
    }
    proof {
        assert(a@ =~= b@);
    }
    true
}

/// How a query token matches: exactly, or tolerating a number of edits.
pub enum QueryKind {
    Exact { word: String },
    Tolerant { typo: u8, word: String },
}

impl QueryKind {
    pub fn exact(word: String) -> (r: QueryKind)
        ensures
            r == (QueryKind::Exact { word }),
    {
        QueryKind::Exact { word }
    }

    pub fn tolerant(typo: u8, word: String) -> (r: QueryKind)
        ensures
            r == (QueryKind::Tolerant { typo, word }),
    {
        QueryKind::Tolerant { typo, word }
    }

    pub open spec fn spec_word(&self) -> Seq<char> {
        match self {
            QueryKind::Exact { word } => word@,
            QueryKind::Tolerant { typo: _, word } => word@,
        }
    }

    pub open spec fn spec_typo(&self) -> u8 {
        match self {
            QueryKind::Exact { word: _ } => 0,
            QueryKind::Tolerant { typo, word: _ } => *typo,
        }
    }

    pub fn word(&self) -> (r: &str)
        ensures
            r@ == self.spec_word(),
    {
        match self {
            QueryKind::Exact { word } => word.as_str(),
            QueryKind::Tolerant { typo: _, word } => word.as_str(),
        }
    }

    pub fn typo(&self) -> (r: u8)
        ensures
            r == self.spec_typo(),
    {
        match self {
            QueryKind::Exact { word: _ } => 0,
            QueryKind::Tolerant { typo, word: _ } => *typo,
        }
    }
}

/// One leaf of a query tree.
pub struct Query {
    pub prefix: bool,
    pub kind: QueryKind,
}

/// A query tree: conjunctions and disjunctions of token queries and
/// phrases.
pub enum Operation {
    And(Vec<Operation>),
    Or(bool, Vec<Operation>),
    Query(Query),
    Phrase(Vec<String>),
}

/// The UTF-8 byte length of a word.
pub open spec fn word_byte_len(w: Seq<char>) -> int {
    (vstd::utf8::encode_utf8(w).len() as usize) as int
}

/// The list holds an entry with exactly these word characters, typo budget
/// and prefix flag.
pub open spec fn entry_in(ws: Seq<(String, u8, bool)>, w: Seq<char>, t: u8, p: bool) -> bool {
    exists|i: int|
        0 <= i < ws.len() && (#[trigger] ws[i]).0@ == w && ws[i].1 == t && ws[i].2 == p
}

/// No two entries agree on word, typo budget and prefix flag at once.
pub open spec fn distinct_entries(ws: Seq<(String, u8, bool)>) -> bool {
    forall|i: int, j: int|
        0 <= i < j < ws.len() ==> !((#[trigger] ws[i]).0@ == (#[trigger] ws[j]).0@ && ws[i].1
            == ws[j].1 && ws[i].2 == ws[j].2)
}

/// The query tree admits `(w, t, p)` as a matchable word: a query leaf
/// with that word, typo budget and prefix flag, or a phrase word (always
/// exact, never prefix).
pub open spec fn query_in_tree(tree: Operation, w: Seq<char>, t: u8, p: bool) -> bool
    decreases tree via query_in_tree_decreases
{
    match tree {
        Operation::And(ops) => exists|i: int|
            0 <= i < ops@.len() && query_in_tree(#[trigger] ops@[i], w, t, p),
        Operation::Or(_, ops) => exists|i: int|
            0 <= i < ops@.len() && query_in_tree(#[trigger] ops@[i], w, t, p),
        Operation::Query(q) => w == q.kind.spec_word() && t == q.kind.spec_typo() && p == q.prefix,
        Operation::Phrase(words) => (exists|i: int|
            0 <= i < words@.len() && (#[trigger] words@[i])@ == w) && t == 0 && !p,
    }
}

#[via_fn]
proof fn query_in_tree_decreases(tree: Operation, w: Seq<char>, t: u8, p: bool) {
    match tree {
        Operation::And(_) => {
            assert forall|i: int| 0 <= i < tree->And_0@.len() implies decreases_to!(tree => tree->And_0@[i]) by {
                assert(decreases_to!(tree => tree->And_0));
                assert(decreases_to!(tree->And_0 => tree->And_0@));
                assert(decreases_to!(tree->And_0@ => tree->And_0@[i]));
            }
        },
        Operation::Or(_, _) => {
            assert forall|i: int| 0 <= i < tree->Or_1@.len() implies decreases_to!(tree => tree->Or_1@[i]) by {
                assert(decreases_to!(tree => tree->Or_1));
                assert(decreases_to!(tree->Or_1 => tree->Or_1@));
                assert(decreases_to!(tree->Or_1@ => tree->Or_1@[i]));
            }
        },
        Operation::Query(_) => {},
        Operation::Phrase(_) => {},
    }
}

/// Walks the tree and records one `(word, typo budget, prefix)` triple per
/// query leaf, and one exact triple per phrase word.
fn resolve_ops(tree: &Operation, out: &mut Vec<(String, u8, bool)>)
    requires
        distinct_entries(old(out)@),
    ensures
        final(out)@.len() >= old(out)@.len(),
        forall|i: int| 0 <= i < old(out)@.len() ==> final(out)@[i] == old(out)@[i],
        distinct_entries(final(out)@),
        forall|i: int|
            old(out)@.len() <= i < final(out)@.len() ==> query_in_tree(
                *tree,
                (#[trigger] final(out)@[i]).0@,
                final(out)@[i].1,
                final(out)@[i].2,
            ),
        forall|w: Seq<char>, t: u8, p: bool|
            query_in_tree(*tree, w, t, p) ==> entry_in(final(out)@, w, t, p),
    decreases *tree,
{
    match tree {
        Operation::And(ops) => {
            let n = ops.len();
            let mut k: usize = 0;
            while k < n
                invariant
                    tree is And,
                    ops == tree->And_0,
                    n == ops@.len(),
                    k <= n,
                    out@.len() >= old(out)@.len(),
                    forall|i: int| 0 <= i < old(out)@.len() ==> out@[i] == old(out)@[i],
                    distinct_entries(out@),
                    forall|i: int|
                        old(out)@.len() <= i < out@.len() ==> query_in_tree(
                            *tree,
                            (#[trigger] out@[i]).0@,
                            out@[i].1,
                            out@[i].2,
                        ),
                    forall|w: Seq<char>, t: u8, p: bool, i: int|
                        0 <= i < k && #[trigger] query_in_tree(ops@[i], w, t, p) ==> entry_in(
                            out@,
                            w,
                            t,
                            p,
                        ),
                decreases n - k,
            {
                proof {
                    assert(decreases_to!(*tree => *ops));
                    assert(decreases_to!(*ops => ops@));
                    assert(decreases_to!(ops@ => ops@[k as int]));
                }
                let ghost pre = out@;
                resolve_ops(&ops[k], out);
                proof {
                    assert forall|w: Seq<char>, t: u8, p: bool, i: int|
                        0 <= i < k + 1 && #[trigger] query_in_tree(ops@[i], w, t, p) implies entry_in(
                        out@,
                        w,
                        t,
                        p,
                    ) by {
                        if i < k {
                            let j = choose|j: int|
                                0 <= j < pre.len() && (#[trigger] pre[j]).0@ == w && pre[j].1 == t
                                    && pre[j].2 == p;
                            assert(out@[j] == pre[j]);
                        }
                    }
                    assert forall|i: int|
                        old(out)@.len() <= i < out@.len() implies query_in_tree(
                        *tree,
                        (#[trigger] out@[i]).0@,
                        out@[i].1,
                        out@[i].2,
                    ) by {
                        if i >= pre.len() {
                            assert(query_in_tree(ops@[k as int], out@[i].0@, out@[i].1, out@[i].2));
                        } else {
                            assert(out@[i] == pre[i]);
                        }
                    }
                }
                k += 1;
            }
            proof {
                assert forall|w: Seq<char>, t: u8, p: bool|
                    query_in_tree(*tree, w, t, p) implies entry_in(out@, w, t, p) by {
                    assert(exists|i: int|
                        0 <= i < tree->And_0@.len() && query_in_tree(
                            #[trigger] tree->And_0@[i],
                            w,
                            t,
                            p,
                        ));
                    let i = choose|i: int|
                        0 <= i < tree->And_0@.len() && query_in_tree(
                            #[trigger] tree->And_0@[i],
                            w,
                            t,
                            p,
                        );
                    assert(query_in_tree(ops@[i], w, t, p));
                }
            }
        },
        Operation::Or(_, ops) => {
            let n = ops.len();
            let mut k: usize = 0;
            while k < n
                invariant
                    tree is Or,
                    ops == tree->Or_1,
                    n == ops@.len(),
                    k <= n,
                    out@.len() >= old(out)@.len(),
                    forall|i: int| 0 <= i < old(out)@.len() ==> out@[i] == old(out)@[i],
                    distinct_entries(out@),
                    forall|i: int|
                        old(out)@.len() <= i < out@.len() ==> query_in_tree(
                            *tree,
                            (#[trigger] out@[i]).0@,
                            out@[i].1,
                            out@[i].2,
                        ),
                    forall|w: Seq<char>, t: u8, p: bool, i: int|
                        0 <= i < k && #[trigger] query_in_tree(ops@[i], w, t, p) ==> entry_in(
                            out@,
                            w,
                            t,
                            p,
                        ),
                decreases n - k,
            {
                proof {
                    assert(decreases_to!(*tree => *ops));
                    assert(decreases_to!(*ops => ops@));
                    assert(decreases_to!(ops@ => ops@[k as int]));
                }
                let ghost pre = out@;
                resolve_ops(&ops[k], out);
                proof {
                    assert forall|w: Seq<char>, t: u8, p: bool, i: int|
                        0 <= i < k + 1 && #[trigger] query_in_tree(ops@[i], w, t, p) implies entry_in(
                        out@,
                        w,
                        t,
                        p,
                    ) by {
                        if i < k {
                            let j = choose|j: int|
                                0 <= j < pre.len() && (#[trigger] pre[j]).0@ == w && pre[j].1 == t
                                    && pre[j].2 == p;
                            assert(out@[j] == pre[j]);
                        }
                    }
                    assert forall|i: int|
                        old(out)@.len() <= i < out@.len() implies query_in_tree(
                        *tree,
                        (#[trigger] out@[i]).0@,
                        out@[i].1,
                        out@[i].2,
                    ) by {
                        if i >= pre.len() {
                            assert(query_in_tree(ops@[k as int], out@[i].0@, out@[i].1, out@[i].2));
                        } else {
                            assert(out@[i] == pre[i]);
                        }
                    }
                }
                k += 1;
            }
            proof {
                assert forall|w: Seq<char>, t: u8, p: bool|
                    query_in_tree(*tree, w, t, p) implies entry_in(out@, w, t, p) by {
                    assert(exists|i: int|
                        0 <= i < tree->Or_1@.len() && query_in_tree(
                            #[trigger] tree->Or_1@[i],
                            w,
                            t,
                            p,
                        ));
                    let i = choose|i: int|
                        0 <= i < tree->Or_1@.len() && query_in_tree(
                            #[trigger] tree->Or_1@[i],
                            w,
                            t,
                            p,
                        );
                    assert(query_in_tree(ops@[i], w, t, p));
                }
            }
        },
        Operation::Query(query) => {
            let typo = match &query.kind {
                QueryKind::Exact { word: _ } => 0,
                QueryKind::Tolerant { typo, word: _ } => *typo,
            };
            let word = match &query.kind {
                QueryKind::Exact { word } => word,
                QueryKind::Tolerant { typo: _, word } => word,
            };
            push_if_absent(out, word, typo, query.prefix);
        },
        Operation::Phrase(words) => {
            let n = words.len();
            let mut k: usize = 0;
            while k < n
                invariant
                    tree is Phrase,
                    words == tree->Phrase_0,
                    n == words@.len(),
                    k <= n,
                    out@.len() >= old(out)@.len(),
                    forall|i: int| 0 <= i < old(out)@.len() ==> out@[i] == old(out)@[i],
                    distinct_entries(out@),
                    forall|i: int|
                        old(out)@.len() <= i < out@.len() ==> query_in_tree(
                            *tree,
                            (#[trigger] out@[i]).0@,
                            out@[i].1,
                            out@[i].2,
                        ),
                    forall|i: int|
                        0 <= i < k ==> entry_in(out@, (#[trigger] words@[i])@, 0, false),
                decreases n - k,
            {
                let ghost pre = out@;
                push_if_absent(out, &words[k], 0, false);
                proof {
                    assert forall|i: int| 0 <= i < k + 1 implies entry_in(
                        out@,
                        (#[trigger] words@[i])@,
                        0,
                        false,
                    ) by {
                        if i < k {
                            let j = choose|j: int|
                                0 <= j < pre.len() && (#[trigger] pre[j]).0@ == words@[i]@
                                    && pre[j].1 == 0 && pre[j].2 == false;
                            assert(out@[j] == pre[j]);
                        }
                    }
                }
                k += 1;
            }
            proof {
                assert forall|w: Seq<char>, t: u8, p: bool|
                    query_in_tree(*tree, w, t, p) implies entry_in(out@, w, t, p) by {
                    let i = choose|i: int| 0 <= i < words@.len() && (#[trigger] words@[i])@ == w;
                    assert(entry_in(out@, words@[i]@, 0, false));
                }
            }
        },
    }
}

/// Adds the triple unless an equal one is already recorded.
#[verifier::loop_isolation(false)]
fn push_if_absent(out: &mut Vec<(String, u8, bool)>, word: &String, typo: u8, prefix: bool)
    requires
        distinct_entries(old(out)@),
    ensures
        final(out)@.len() >= old(out)@.len(),
        forall|i: int| 0 <= i < old(out)@.len() ==> final(out)@[i] == old(out)@[i],
        distinct_entries(final(out)@),
        entry_in(final(out)@, word@, typo, prefix),
        forall|i: int|
            old(out)@.len() <= i < final(out)@.len() ==> (#[trigger] final(out)@[i]).0@ == word@
                && final(out)@[i].1 == typo && final(out)@[i].2 == prefix,
{
    let n = out.len();
    let mut k: usize = 0;
    while k < n
        invariant
            out@ == old(out)@,
            n == out@.len(),
            k <= n,
            forall|i: int|
                0 <= i < k ==> !((#[trigger] out@[i]).0@ == word@ && out@[i].1 == typo && out@[i].2
                    == prefix),
        decreases n - k,
    {
        let hit = out[k].0 == *word && out[k].1 == typo && out[k].2 == prefix;
        if hit {
            proof {
                assert(out@[k as int].0@ == word@);
            }
            return ;
        }
        k += 1;
    }
    let copy = word.clone();
    out.push((copy, typo, prefix));
    proof {
        assert(final(out)@[final(out)@.len() - 1].0@ == word@);
    }
}

/// Lists all words that can be considered a match for the query tree,
/// each with its typo budget and prefix flag: exactly the tree's query
/// leaves and phrase words, without duplicates.
pub fn fetch_queries(tree: &Operation) -> (r: Vec<(String, u8, bool)>)
    ensures
        distinct_entries(r@),
        forall|i: int|
            0 <= i < r@.len() ==> query_in_tree(*tree, (#[trigger] r@[i]).0@, r@[i].1, r@[i].2),
        forall|w: Seq<char>, t: u8, p: bool|
            query_in_tree(*tree, w, t, p) ==> entry_in(r@, w, t, p),
{
    let mut queries: Vec<(String, u8, bool)> = Vec::new();
    resolve_ops(tree, &mut queries);
    queries
}

/// The edit distance that the Levenshtein automaton of `(word, typos,
/// is_prefix)` reports for `text`, where it reports one.
pub uninterp spec fn lev_eval(word: Seq<char>, typos: u8, is_prefix: bool, text: Seq<char>) -> Option<u8>;

/// Relies on levenshtein_automata: `LevenshteinAutomatonBuilder::new` with
/// transpositions at distance one, `build_dfa` / `build_prefix_dfa`, and
/// `DFA::eval`. The reported distance is a function of the four arguments
/// alone; a reported distance never exceeds the automaton's limit, and a
/// text equal to the word is at distance zero.
#[verifier::external_body]
fn eval_lev_dfa(word: &str, typos: u8, is_prefix: bool, text: &str) -> (r: Option<u8>)
    ensures
        r == lev_eval(word@, typos, is_prefix, text@),
        r matches Some(d) ==> d <= typos,
        text@ == word@ ==> r == Some(0u8),
{
    let limit = if typos > 2 {
        2
    } else {
        typos
    };
    let builder = levenshtein_automata::LevenshteinAutomatonBuilder::new(limit, true);
    let dfa = if is_prefix {
        builder.build_prefix_dfa(word)
    } else {
        builder.build_dfa(word)
    };
    match dfa.eval(text) {
        levenshtein_automata::Distance::Exact(d) => Some(d),
        levenshtein_automata::Distance::AtLeast(_) => None,
    }
}

/// The matcher entry `(word, typo, prefix)` accepts `text`.
pub open spec fn entry_matches(word: Seq<char>, typo: u8, is_prefix: bool, text: Seq<char>) -> bool {
    match lev_eval(word, typo, is_prefix, text) {
        Some(d) => d <= typo,
        None => false,
    }
}

/// A token of a document field, as the tokenizer hands it over.
pub struct Token {
    pub text: String,
}

impl Token {
    pub fn text(&self) -> (r: &str)
        ensures
            r@ == self.text@,
    {
        self.text.as_str()
    }

    /// The number of whole characters of the token that fit in `nbytes`
    /// bytes of its UTF-8 form.
    pub fn num_chars_from_bytes(&self, nbytes: usize) -> (r: usize)
        requires
            self.text@.len() <= MAX_HIGHLIGHT_LEN,
        ensures
            r <= self.text@.len(),
            bytes_of_prefix(self.text@, r as int) <= nbytes,
            r < self.text@.len() ==> bytes_of_prefix(self.text@, r + 1) > nbytes,
    {
        let chars = chars_vec(self.text.as_str());
        let n = chars.len();
        let mut count: usize = 0;
        let mut used: usize = 0;
        while count < n
            invariant
                n == self.text@.len() <= MAX_HIGHLIGHT_LEN,
                chars@ == self.text@,
                count <= n,
                used == bytes_of_prefix(self.text@, count as int),
                used <= nbytes,
            decreases n - count,
        {
            proof {
                lemma_bytes_of_prefix_bounds(self.text@, count as int);
            }
            let step = char_len_utf8(chars[count]);
            if used + step > nbytes {
                return count;
            }
            used = used + step;
            count += 1;
        }
        count
    }
}

/// Structure created from a query tree referencing the words that match it,
/// longest words first.
pub struct MatchingWords {
    pub words: Vec<(String, u8, bool)>,
}

/// Sorted so that words of more bytes come first, ties in any order.
pub open spec fn sorted_by_len_desc(ws: Seq<(String, u8, bool)>) -> bool {
    forall|i: int, j: int|
        0 <= i < j < ws.len() ==> word_byte_len((#[trigger] ws[i]).0@) >= word_byte_len(
            (#[trigger] ws[j]).0@,
        )
}

impl MatchingWords {
    /// A matcher that matches nothing.
    pub fn empty() -> (r: MatchingWords)
        ensures
            r.words@.len() == 0,
    {
        MatchingWords { words: Vec::new() }
    }

    /// Collects the matchable words of the query tree — exactly its query
    /// leaves and phrase words, without duplicates — and sorts them by
    /// descending byte length, so that the longest matching query word
    /// decides how much of a token is highlighted.
    pub fn from_query_tree(tree: &Operation) -> (r: MatchingWords)
        ensures
            sorted_by_len_desc(r.words@),
            distinct_entries(r.words@),
            forall|w: Seq<char>, t: u8, p: bool|
                entry_in(r.words@, w, t, p) <==> query_in_tree(*tree, w, t, p),
    {
        let queries = fetch_queries(tree);
        let n = queries.len();
        let mut words: Vec<(String, u8, bool)> = Vec::new();
        let mut k: usize = 0;
        while k < n
            invariant
                n == queries@.len(),
                k <= n,
                distinct_entries(queries@),
                forall|i: int|
                    0 <= i < n ==> query_in_tree(
                        *tree,
                        (#[trigger] queries@[i]).0@,
                        queries@[i].1,
                        queries@[i].2,
                    ),
                forall|w: Seq<char>, t: u8, p: bool|
                    query_in_tree(*tree, w, t, p) ==> entry_in(queries@, w, t, p),
                sorted_by_len_desc(words@),
                distinct_entries(words@),
                forall|w: Seq<char>, t: u8, p: bool|
                    entry_in(words@, w, t, p) <==> exists|j: int|
                        0 <= j < k && (#[trigger] queries@[j]).0@ == w && queries@[j].1 == t
                            && queries@[j].2 == p,
            decreases n - k,
        {
            let entry = clone_entry_at(&queries, k);
            proof {
                let qk = queries@[k as int];
                if entry_in(words@, qk.0@, qk.1, qk.2) {
                    let j = choose|j: int|
                        0 <= j < k && (#[trigger] queries@[j]).0@ == qk.0@ && queries@[j].1 == qk.1
                            && queries@[j].2 == qk.2;
                    assert(false);
                }
            }
            let ghost pre_words = words@;
            words = insert_by_len(words, entry);
            proof {
                assert forall|w: Seq<char>, t: u8, p: bool|
                    entry_in(words@, w, t, p) implies exists|j: int|
                    0 <= j < k + 1 && (#[trigger] queries@[j]).0@ == w && queries@[j].1 == t
                        && queries@[j].2 == p by {
                    if entry_in(pre_words, w, t, p) {
                        let j = choose|j: int|
                            0 <= j < k && (#[trigger] queries@[j]).0@ == w && queries@[j].1 == t
                                && queries@[j].2 == p;
                    } else {
                        let qk = queries@[k as int];
                        assert(qk.0@ == w && qk.1 == t && qk.2 == p);
                    }
                }
                assert forall|j: int| 0 <= j < k + 1 implies entry_in(
                    words@,
                    (#[trigger] queries@[j]).0@,
                    queries@[j].1,
                    queries@[j].2,
                ) by {
                    let qj = queries@[j];
                    if j < k {
                        assert(entry_in(pre_words, qj.0@, qj.1, qj.2));
                    }
                }
            }
            k += 1;
        }
        proof {
            assert forall|w: Seq<char>, t: u8, p: bool|
                entry_in(words@, w, t, p) implies query_in_tree(*tree, w, t, p) by {
                let j = choose|j: int|
                    0 <= j < k && (#[trigger] queries@[j]).0@ == w && queries@[j].1 == t
                        && queries@[j].2 == p;
            }
        }
        MatchingWords { words }
    }

    /// Returns the number of matching characters of `word_to_highlight`
    /// when it matches one of the query words: the whole token for an exact
    /// word, and the aligned prefix for a prefix word. The first matching
    /// entry, in stored order, decides.
    pub fn matching_bytes(&self, word_to_highlight: &Token) -> (r: Option<usize>)
        requires
            word_to_highlight.text@.len() <= MAX_HIGHLIGHT_LEN,
            forall|i: int|
                0 <= i < self.words@.len() ==> (#[trigger] self.words@[i]).0@.len()
                    <= MAX_HIGHLIGHT_LEN,
        ensures
            r is Some <==> exists|i: int|
                0 <= i < self.words@.len() && entry_matches(
                    (#[trigger] self.words@[i]).0@,
                    self.words@[i].1,
                    self.words@[i].2,
                    word_to_highlight.text@,
                ),
            r matches Some(k) ==> k <= word_to_highlight.text@.len(),
            r matches Some(k) ==> exists|i: int|
                {
                    &&& 0 <= i < self.words@.len()
                    &&& entry_matches(
                        (#[trigger] self.words@[i]).0@,
                        self.words@[i].1,
                        self.words@[i].2,
                        word_to_highlight.text@,
                    )
                    &&& forall|j: int|
                        0 <= j < i ==> !entry_matches(
                            (#[trigger] self.words@[j]).0@,
                            self.words@[j].1,
                            self.words@[j].2,
                            word_to_highlight.text@,
                        )
                    &&& !self.words@[i].2 ==> k == word_to_highlight.text@.len()
                },
    {
        let n = self.words.len();
        let mut i: usize = 0;
        while i < n
            invariant
                n == self.words@.len(),
                word_to_highlight.text@.len() <= MAX_HIGHLIGHT_LEN,
                forall|j: int|
                    0 <= j < n ==> (#[trigger] self.words@[j]).0@.len() <= MAX_HIGHLIGHT_LEN,
                i <= n,
                forall|j: int|
                    0 <= j < i ==> !entry_matches(
                        (#[trigger] self.words@[j]).0@,
                        self.words@[j].1,
                        self.words@[j].2,
                        word_to_highlight.text@,
                    ),
            decreases n - i,
        {
            let entry = &self.words[i];
            let verdict = eval_lev_dfa(
                entry.0.as_str(),
                entry.1,
                entry.2,
                word_to_highlight.text(),
            );
            match verdict {
                Some(d) if d <= entry.1 => {
                    if entry.2 {
                        let len = bytes_to_highlight(word_to_highlight.text(), entry.0.as_str());
                        return Some(word_to_highlight.num_chars_from_bytes(len));
                    } else {
                        let full = word_to_highlight.text.as_str().unicode_len();
                        return Some(full);
                    }
                },
                _ => {},
            }
            i += 1;
        }
        None
    }
}

/// An independent copy of the entry at position `k`.
fn clone_entry_at(queries: &Vec<(String, u8, bool)>, k: usize) -> (r: (String, u8, bool))
    requires
        k < queries@.len(),
    ensures
        r.0@ == queries@[k as int].0@,
        r.1 == queries@[k as int].1,
        r.2 == queries@[k as int].2,
{
    let word = queries[k].0.clone();
    let typo = queries[k].1;
    let prefix = queries[k].2;
    (word, typo, prefix)
}

/// Inserts the entry behind every word of at least as many bytes, keeping
/// the list sorted by descending byte length.
#[verifier::rlimit(50)]
fn insert_by_len(words: Vec<(String, u8, bool)>, entry: (String, u8, bool)) -> (r: Vec<
    (String, u8, bool),
>)
    requires
        sorted_by_len_desc(words@),
        distinct_entries(words@),
        !entry_in(words@, entry.0@, entry.1, entry.2),
    ensures
        sorted_by_len_desc(r@),
        distinct_entries(r@),
        r@.len() == words@.len() + 1,
        forall|w: Seq<char>, t: u8, p: bool|
            entry_in(r@, w, t, p) <==> (entry_in(words@, w, t, p) || (w == entry.0@ && t == entry.1
                && p == entry.2)),
    decreases words@.len(),
{
    let ghost orig = words@;
    let mut words = words;
    let n = words.len();
    let entry_len = entry.0.as_str().len();
    let mut k: usize = 0;
    while k < n && words[k].0.as_str().len() >= entry_len
        invariant
            words@ == orig,
            sorted_by_len_desc(orig),
            n == orig.len(),
            entry_len == word_byte_len(entry.0@),
            k <= n,
            forall|i: int|
                0 <= i < k ==> word_byte_len((#[trigger] orig[i]).0@) >= word_byte_len(entry.0@),
        decreases n - k,
    {
        k += 1;
    }
    words.insert(k, entry);
    proof {
        let updated = words@;
        assert forall|i: int, j: int| 0 <= i < j < updated.len() implies word_byte_len(
            (#[trigger] updated[i]).0@,
        ) >= word_byte_len((#[trigger] updated[j]).0@) by {
            if j < k {
            } else if j == k {
                assert(updated[i] == orig[i]);
            } else if i < k {
                assert(updated[i] == orig[i] && updated[j] == orig[j - 1]);
            } else if i == k {
                assert(updated[j] == orig[j - 1]);
                if k < n {
                    assert(word_byte_len(orig[k as int].0@) >= word_byte_len(orig[j - 1].0@) || k
                        as int == j - 1);
                }
            } else {
                assert(updated[i] == orig[i - 1] && updated[j] == orig[j - 1]);
            }
        }
        assert forall|w: Seq<char>, t: u8, p: bool|
            entry_in(updated, w, t, p) implies (entry_in(orig, w, t, p) || (w == entry.0@ && t
            == entry.1 && p == entry.2)) by {
            let i = choose|i: int|
                0 <= i < updated.len() && (#[trigger] updated[i]).0@ == w && updated[i].1 == t
                    && updated[i].2 == p;
            if i < k {
                assert(orig[i] == updated[i]);
            } else if i > k {
                assert(orig[i - 1] == updated[i]);
            }
        }
        assert forall|w: Seq<char>, t: u8, p: bool|
            (entry_in(orig, w, t, p) || (w == entry.0@ && t == entry.1 && p
            == entry.2)) implies entry_in(updated, w, t, p) by {
            if entry_in(orig, w, t, p) {
                let i = choose|i: int|
                    0 <= i < orig.len() && (#[trigger] orig[i]).0@ == w && orig[i].1 == t
                        && orig[i].2 == p;
                if i < k {
                    assert(updated[i] == orig[i]);
                } else {
                    assert(updated[i + 1] == orig[i]);
                }
            } else {
                assert(updated[k as int].0@ == w && updated[k as int].1 == t && updated[k as int].2
                    == p);
            }
        }
        assert forall|i: int, j: int| 0 <= i < j < updated.len() implies !((
        #[trigger] updated[i]).0@ == (#[trigger] updated[j]).0@ && updated[i].1 == updated[j].1
            && updated[i].2 == updated[j].2) by {
            if i != k && j != k {
                let oi: int = if i < k {
                    i
                } else {
                    i - 1
                };
                let oj: int = if j < k {
                    j
                } else {
                    j - 1
                };
                assert(updated[i] == orig[oi] && updated[j] == orig[oj]);
            } else if i == k {
                assert(updated[j] == orig[j - 1]);
                assert(!entry_in(orig, entry.0@, entry.1, entry.2));
                if updated[j].0@ == entry.0@ && updated[j].1 == entry.1 && updated[j].2
                    == entry.2 {
                    assert(entry_in(orig, entry.0@, entry.1, entry.2));
                }
            } else {
                assert(updated[i] == orig[i]);
                assert(!entry_in(orig, entry.0@, entry.1, entry.2));
                if updated[i].0@ == entry.0@ && updated[i].1 == entry.1 && updated[i].2
                    == entry.2 {
                    assert(entry_in(orig, entry.0@, entry.1, entry.2));
                }
            }
        }
    }
    words
}

} // verus!
