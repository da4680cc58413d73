//! Extensions of string slices: byte-addressed substrings, and line and
//! column lookup.

use vstd::prelude::*;

use crate::text::{
    byte_offset, byte_offsets, chars_of, lemma_byte_offset_bounded, lemma_byte_offset_mono, lemma_byte_offset_strict,
    utf8_len,
};

verus! {

/// Whether the byte offset `b` of `s` falls at the start of a character
/// (or at the end of `s`), and if so at which character position.
pub open spec fn is_boundary(s: Seq<char>, b: int) -> bool {
    exists|k: int| 0 <= k <= s.len() && byte_offset(s, k) == b
}

/// The character position at which the byte offset `b` of `s` falls.
pub open spec fn char_index(s: Seq<char>, b: int) -> int {
    choose|k: int| 0 <= k <= s.len() && byte_offset(s, k) == b
}

/// Two positions at the same byte offset are the same position.
pub proof fn lemma_char_index_unique(s: Seq<char>, j: int, k: int)
    requires
        0 <= j <= s.len(),
        0 <= k <= s.len(),
        byte_offset(s, j) == byte_offset(s, k),
    ensures
        j == k,
{
    if j < k {
        lemma_byte_offset_strict(s, j, k);
    } else if k < j {
        lemma_byte_offset_strict(s, k, j);
    }
}

/// The positions of the ends of a substring that `substr` takes are in
/// order and inside the text.
pub proof fn lemma_char_index_bounds(s: Seq<char>, start: int, len: int)
    requires
        0 <= start,
        0 <= len,
        substr_ok(s, start, len),
        spec_substr(s, start, len) is Some,
    ensures
        0 <= char_index(s, start) <= char_index(s, start + len) <= s.len(),
{
    assert(is_boundary(s, start));
    assert(is_boundary(s, start + len));
    let a = char_index(s, start);
    let b = char_index(s, start + len);
    if b < a {
        lemma_byte_offset_strict(s, b, a);
    }
}

/// What `substr` gives for `s`: nothing for an empty or too long range,
/// otherwise the characters between the two byte offsets.
pub open spec fn spec_substr(s: Seq<char>, start: int, len: int) -> Option<Seq<char>> {
    if len == 0 || start + len > utf8_len(s) {
        None
    } else {
        Some(s.subrange(char_index(s, start), char_index(s, start + len)))
    }
}

/// The inputs on which `substr` does not panic: the end is computed
/// without overflow, and a range that is taken starts and ends at
/// character boundaries.
pub open spec fn substr_ok(s: Seq<char>, start: int, len: int) -> bool {
    &&& start + len <= usize::MAX
    &&& utf8_len(s) <= usize::MAX
    &&& (len == 0 || start + len > utf8_len(s) || (is_boundary(s, start) && is_boundary(s, start + len)))
}

/// Substrings addressed by byte offset and byte length.
pub trait Substr<'s> {
    /// The characters of the receiver.
    spec fn text(&self) -> Seq<char>;

    /// The `len` bytes at byte offset `start`; `None` when `len` is 0 or
    /// the range passes the end.
    fn substr(&'s self, start: usize, len: usize) -> (r: Option<&'s str>)
        requires
            substr_ok(self.text(), start as int, len as int),
        ensures
            r matches Some(t) ==> spec_substr(self.text(), start as int, len as int) == Some(t@),
            r is None ==> spec_substr(self.text(), start as int, len as int) is None,
    ;
}

/// For each byte offset of `s` up to its end: 0 where no character starts,
/// else one more than the position of the character that starts there.
pub fn boundary_table(s: &Vec<char>, offs: &Vec<usize>) -> (t: Vec<usize>)
    requires
        offs.len() == s.len() + 1,
        forall|m: int| 0 <= m <= s.len() ==> #[trigger] offs@[m] == byte_offset(s@, m),
        utf8_len(s@) < usize::MAX,
    ensures
        t.len() == utf8_len(s@) + 1,
        forall|b: int| 0 <= b <= utf8_len(s@) ==> (#[trigger] t@[b] != 0 <==> is_boundary(s@, b)),
        forall|b: int| 0 <= b <= utf8_len(s@) && #[trigger] t@[b] != 0 ==> t@[b] - 1 == char_index(s@, b),
{
    let n = s.len();
    proof {
        assert(s@.take(n as int) =~= s@);
    }
    let total = offs[n];
    let mut t: Vec<usize> = Vec::new();
    let mut b: usize = 0;
    while b <= total
        invariant
            b <= total + 1,
            total == utf8_len(s@),
            total < usize::MAX,
            t.len() == b,
            forall|i: int| 0 <= i < b ==> #[trigger] t@[i] == 0,
        decreases total + 1 - b,
    {
        t.push(0);
        b = b + 1;
    }
    let mut k: usize = 0;
    while k <= n
        invariant
            n == s.len(),
            offs.len() == s.len() + 1,
            forall|m: int| 0 <= m <= s.len() ==> #[trigger] offs@[m] == byte_offset(s@, m),
            k <= n + 1,
            total == utf8_len(s@),
            t.len() == total + 1,
            forall|m: int| 0 <= m < k ==> #[trigger] t@[offs@[m] as int] == m + 1,
            forall|c: int| 0 <= c <= total && #[trigger] t@[c] != 0 ==> 0 <= t@[c] - 1 < k && offs@[t@[c] - 1] == c,
        decreases n + 1 - k,
    {
        proof {
            lemma_byte_offset_bounded(s@, k as int);
            assert forall|m: int| 0 <= m < k implies offs@[m] != offs@[k as int] by {
                lemma_byte_offset_strict(s@, m, k as int);
            }
        }
        let ghost before = t@;
        t.set(offs[k], k + 1);
        proof {
            assert forall|m: int| 0 <= m <= k implies #[trigger] t@[offs@[m] as int] == m + 1 by {
                lemma_byte_offset_bounded(s@, m);
                if m < k {
                    assert(offs@[m] != offs@[k as int]);
                    assert(before[offs@[m] as int] == m + 1);
                }
            }
        }
        k = k + 1;
    }
    proof {
        assert forall|c: int| 0 <= c <= utf8_len(s@) implies (#[trigger] t@[c] != 0 <==> is_boundary(s@, c)) by {
            if is_boundary(s@, c) {
                let w = choose|w: int| 0 <= w <= s@.len() && byte_offset(s@, w) == c;
                assert(t@[offs@[w] as int] == w + 1);
            }
        }
        assert forall|c: int| 0 <= c <= utf8_len(s@) && #[trigger] t@[c] != 0 implies t@[c] - 1 == char_index(s@, c) by {
            let w = t@[c] - 1;
            assert(byte_offset(s@, w) == c);
            lemma_char_index_unique(s@, char_index(s@, c), w);
        }
    }
    t
}

/// The position of the character that starts at byte offset `b`, found in
/// the table of offsets.
fn find_char_index(s: &Vec<char>, offs: &Vec<usize>, b: usize) -> (k: usize)
    requires
        offs.len() == s.len() + 1,
        forall|m: int| 0 <= m <= s.len() ==> #[trigger] offs@[m] == byte_offset(s@, m),
        is_boundary(s@, b as int),
    ensures
        k <= s.len(),
        byte_offset(s@, k as int) == b,
        k == char_index(s@, b as int),
{
    let ghost w = choose|k: int| 0 <= k <= s.len() && byte_offset(s@, k) == b;
    let mut k: usize = 0;
    while k < s.len() && offs[k] != b
        invariant
            k <= s.len(),
            offs.len() == s.len() + 1,
            forall|m: int| 0 <= m <= s.len() ==> #[trigger] offs@[m] == byte_offset(s@, m),
            0 <= w <= s.len(),
            byte_offset(s@, w) == b,
            forall|m: int| 0 <= m < k ==> #[trigger] offs@[m] != b,
        decreases s.len() - k,
    {
        k = k + 1;
    }
    proof {
        if offs@[k as int] != b {
            assert(offs@[w] == b);
            if w < k {
                assert(false);
            } else {
                lemma_char_index_unique(s@, w, k as int);
            }
        }
        lemma_char_index_unique(s@, char_index(s@, b as int), k as int);
    }
    k
}

impl<'s> Substr<'s> for &'s str {
    open spec fn text(&self) -> Seq<char> {
        (*self)@
    }

    fn substr(&'s self, start: usize, len: usize) -> (r: Option<&'s str>) {
        if len == 0 {
            return None;
        }
        let s = chars_of(*self);
        let offs = byte_offsets(&s);
        let total = offs[s.len()];
        proof {
            assert(s@.take(s@.len() as int) =~= s@);
        }
        if start + len > total {
            return None;
        }
        let a = find_char_index(&s, &offs, start);
        let b = find_char_index(&s, &offs, start + len);
        proof {
            if b < a {
                lemma_byte_offset_strict(s@, b as int, a as int);
            }
        }
        Some((*self).substring_char(a, b))
    }
}

// ---------------------------------------------------------------------------
// Lines and columns.
// ---------------------------------------------------------------------------

/// The first position at or after `p` that holds a newline, or the end.
pub open spec fn newline_from(s: Seq<char>, p: int) -> int
    decreases s.len() - p,
{
    if 0 <= p < s.len() && s[p] != '\n' {
        newline_from(s, p + 1)
    } else {
        p
    }
}

/// The lines of `s`, as `str::lines` gives them: split after each newline,
/// a line's final "\r\n" or "\n" dropped, and no empty line after a final newline.
pub open spec fn spec_lines(s: Seq<char>) -> Seq<Seq<char>>
    decreases s.len(),
{
    if s.len() == 0 {
        seq![]
    } else {
        let j = newline_from(s, 0);
        if j < 0 || j >= s.len() {
            seq![s]
        } else {
            let line = s.take(j);
            let line = if line.len() > 0 && line.last() == '\r' {
                line.drop_last()
            } else {
                line
            };
            seq![line] + spec_lines(s.skip(j + 1))
        }
    }
}

/// The line (from 1) and column (in characters, from 0) of the character
/// at position `k`.
pub open spec fn line_col(s: Seq<char>, k: int) -> (nat, nat)
    decreases k,
{
    if k <= 0 {
        (1, 0)
    } else {
        let (l, c) = line_col(s, k - 1);
        if s[k - 1] == '\n' {
            (l + 1, 0)
        } else {
            (l, c + 1)
        }
    }
}

/// What `pos` gives for the byte offset `n` of `s`.
pub open spec fn spec_pos(s: Seq<char>, n: int) -> (nat, nat) {
    if n >= s.len() {
        (0, 0)
    } else {
        line_col(s, char_index(s, n))
    }
}

/// The inputs on which `pos` does not panic: `n` is past the character
/// count, or it is the byte offset of a character.
pub open spec fn pos_ok(s: Seq<char>, n: int) -> bool {
    n >= s.len() || exists|k: int| 0 <= k < s.len() && byte_offset(s, k) == n
}

/// Positions in text, counted in lines and columns.
pub trait Textwise {
    /// The characters of the receiver.
    spec fn chars_view(&self) -> Seq<char>;

    /// The line (from 1) and column (from 0) of the character at byte
    /// offset `n`; (0, 0) when `n` is not below the character count.
    fn pos(&self, n: usize) -> (r: (usize, usize))
        requires
            pos_ok(self.chars_view(), n as int),
        ensures
            (r.0 as nat, r.1 as nat) == spec_pos(self.chars_view(), n as int),
    ;

    /// The line numbered `n`, from 1.
    fn line(&self, n: usize) -> (r: &str)
        requires
            1 <= n <= spec_lines(self.chars_view()).len(),
        ensures
            r@ == spec_lines(self.chars_view())[n - 1],
    ;
}

proof fn lemma_line_col_bound(s: Seq<char>, k: int)
    requires
        0 <= k,
    ensures
        line_col(s, k).0 <= k + 1,
        line_col(s, k).1 <= k,
    decreases k,
{
    if k > 0 {
        lemma_line_col_bound(s, k - 1);
    }
}

proof fn lemma_newline_from_bounds(s: Seq<char>, p: int)
    requires
        0 <= p <= s.len(),
    ensures
        p <= newline_from(s, p) <= s.len(),
        newline_from(s, p) < s.len() ==> s[newline_from(s, p)] == '\n',
        forall|m: int| p <= m < newline_from(s, p) ==> #[trigger] s[m] != '\n',
    decreases s.len() - p,
{
    if p < s.len() && s[p] != '\n' {
        lemma_newline_from_bounds(s, p + 1);
    }
}

/// Where the search for a newline starts inside a suffix, it ends at the same place.
proof fn lemma_newline_from_skip(s: Seq<char>, a: int, p: int)
    requires
        0 <= a <= p <= s.len(),
    ensures
        newline_from(s.skip(a), p - a) + a == newline_from(s, p),
    decreases s.len() - p,
{
    if p < s.len() && s[p] != '\n' {
        lemma_newline_from_skip(s, a, p + 1);
    }
}

/// The lines of a text that starts with a line ended by a newline at `j`
/// are that line and the lines after the newline.
proof fn lemma_lines_step(s: Seq<char>, j: int)
    requires
        0 <= j < s.len(),
        j == newline_from(s, 0),
    ensures
        spec_lines(s).len() == 1 + spec_lines(s.skip(j + 1)).len(),
        spec_lines(s).skip(1) == spec_lines(s.skip(j + 1)),
{
    assert(spec_lines(s) == seq![spec_lines(s)[0]] + spec_lines(s.skip(j + 1)));
    assert(spec_lines(s).skip(1) =~= spec_lines(s.skip(j + 1)));
}

impl Textwise for &str {
    open spec fn chars_view(&self) -> Seq<char> {
        (*self)@
    }

    fn pos(&self, n: usize) -> (r: (usize, usize)) {
        let s = chars_of(*self);
        if n >= s.len() {
            return (0, 0);
        }
        let mut line: usize = 1;
        let mut col: usize = 0;
        let mut idx: usize = 0;
        let mut k: usize = 0;
        let ghost w = choose|k: int| 0 <= k < s.len() && byte_offset(s@, k) == n;
        proof {
            assert(pos_ok(s@, n as int));
            assert(s@.take(0) =~= Seq::<char>::empty());
        }
        while k < s.len()
            invariant
                k <= s.len(),
                n < s.len(),
                0 <= w < s.len(),
                byte_offset(s@, w) == n,
                idx == byte_offset(s@, k as int),
                (line as nat, col as nat) == line_col(s@, k as int),
                forall|m: int| 0 <= m < k ==> byte_offset(s@, m) != n,
                s@ == self.chars_view(),
            decreases s.len() - k,
        {
            if idx == n {
                proof {
                    assert(0 <= k <= s.len() && byte_offset(s@, k as int) == n);
                    assert(is_boundary(s@, n as int));
                    lemma_char_index_unique(s@, char_index(s@, n as int), k as int);
                    assert(spec_pos(s@, n as int) == line_col(s@, k as int));
                }
                return (line, col);
            }
            proof {
                assert(k < w);
                crate::text::lemma_byte_offset_step(s@, k as int);
                lemma_byte_offset_mono(s@, k + 1, w);
                lemma_line_col_bound(s@, k as int);
            }
            let c = s[k];
            if c == '\n' {
                line = line + 1;
                col = 0;
            } else {
                col = col + 1;
            }
            idx = idx + crate::text::char_utf8_len(c);
            k = k + 1;
        }
        proof {
            assert(byte_offset(s@, w) != n);
        }
        (0, 0)
    }

    fn line(&self, line_n: usize) -> (r: &str) {
        let s = chars_of(*self);
        let target = line_n - 1;
        let mut idx: usize = 0;
        let mut start: usize = 0;
        proof {
            assert(s@.skip(0) =~= s@);
        }
        loop
            invariant
                start <= s.len(),
                s@ == (*self)@,
                target == line_n - 1,
                idx <= target,
                target + 1 <= spec_lines(s@).len(),
                spec_lines(s@).skip(idx as int) == spec_lines(s@.skip(start as int)),
            decreases s.len() - start,
        {
            let ghost t = s@.skip(start as int);
            proof {
                if t.len() == 0 {
                    assert(spec_lines(s@).skip(idx as int).len() == 0);
                }
            }
            // the end of this line
            let mut j: usize = start;
            proof {
                lemma_newline_from_skip(s@, start as int, start as int);
                lemma_newline_from_bounds(s@, start as int);
            }
            while j < s.len() && s[j] != '\n'
                invariant
                    start <= j <= s.len(),
                    newline_from(s@, start as int) == newline_from(s@, j as int),
                decreases s.len() - j,
            {
                j = j + 1;
            }
            if idx == target {
                let mut end = j;
                if j < s.len() && end > start && s[end - 1] == '\r' {
                    end = end - 1;
                }
                proof {
                    let jj = j - start;
                    assert(newline_from(t, 0) == jj);
                    assert(spec_lines(s@)[target as int] == spec_lines(t)[0]);
                    if j < s.len() {
                        assert(t.take(jj) =~= s@.subrange(start as int, j as int));
                        if jj > 0 && t.take(jj).last() == '\r' {
                            assert(t.take(jj).drop_last() =~= s@.subrange(start as int, j - 1));
                        }
                    } else {
                        assert(t =~= s@.subrange(start as int, j as int));
                    }
                }
                return (*self).substring_char(start, end);
            }
            proof {
                if j >= s.len() {
                    lemma_newline_from_skip(s@, start as int, start as int);
                    if t.len() > 0 {
                        assert(spec_lines(t) =~= seq![t]);
                    }
                    assert(false);
                }
                lemma_lines_step(t, j - start);
                assert(t.skip(j - start + 1) =~= s@.skip(j + 1));
                assert(spec_lines(s@).skip(idx + 1) =~= spec_lines(s@).skip(idx as int).skip(1));
            }
            idx = idx + 1;
            start = j + 1;
        }
    }
}

/// Before the first newline, the line is 1 and the column the position.
proof fn lemma_line_col_first_line(s: Seq<char>, k: int)
    requires
        0 <= k <= s.len(),
        forall|m: int| 0 <= m < k ==> #[trigger] s[m] != '\n',
    ensures
        line_col(s, k) == (1nat, k as nat),
    decreases k,
{
    if k > 0 {
        lemma_line_col_first_line(s, k - 1);
    }
}

/// Past a newline at `j`, lines and columns are those of the text after it,
/// one line further down.
proof fn lemma_line_col_after_newline(s: Seq<char>, j: int, k: int)
    requires
        0 <= j < s.len(),
        s[j] == '\n',
        forall|m: int| 0 <= m < j ==> #[trigger] s[m] != '\n',
        j + 1 <= k <= s.len(),
    ensures
        line_col(s, k) == (line_col(s.skip(j + 1), k - j - 1).0 + 1, line_col(s.skip(j + 1), k - j - 1).1),
    decreases k,
{
    if k == j + 1 {
        lemma_line_col_first_line(s, j);
    } else {
        lemma_line_col_after_newline(s, j, k - 1);
        assert(s.skip(j + 1)[k - 1 - j - 1] == s[k - 1]);
    }
}

/// `pos` and `line` agree: the character at position `k`, other than a
/// newline or the carriage return that ends a line, stands in the line
/// that `line_col` names, at the column that it names.
pub proof fn lemma_line_col_finds_the_char(s: Seq<char>, k: int)
    requires
        0 <= k < s.len(),
        s[k] != '\n',
        !(s[k] == '\r' && k + 1 < s.len() && s[k + 1] == '\n'),
    ensures
        ({
            let (l, c) = line_col(s, k);
            &&& 1 <= l <= spec_lines(s).len()
            &&& c < spec_lines(s)[l - 1].len()
            &&& spec_lines(s)[l - 1][c as int] == s[k]
        }),
    decreases s.len(),
{
    let j = newline_from(s, 0);
    lemma_newline_from_bounds(s, 0);
    if k < j {
        lemma_line_col_first_line(s, k);
        if j >= s.len() {
            assert(spec_lines(s) == seq![s]);
        } else {
            lemma_lines_step(s, j);
            let line = s.take(j);
            assert(spec_lines(s)[0] == if line.len() > 0 && line.last() == '\r' {
                line.drop_last()
            } else {
                line
            });
            if line.last() == '\r' {
                assert(k < j - 1);
            }
        }
    } else {
        assert(k > j);
        let t = s.skip(j + 1);
        lemma_line_col_after_newline(s, j, k);
        lemma_lines_step(s, j);
        assert(t[k - j - 1] == s[k]);
        if k + 1 < s.len() {
            assert(t[k - j] == s[k + 1]);
        }
        lemma_line_col_finds_the_char(t, k - j - 1);
        let (l2, c2) = line_col(t, k - j - 1);
        assert(spec_lines(s)[l2 as int] == spec_lines(t)[l2 - 1]);
    }
}

} // verus!
