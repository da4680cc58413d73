//! Character-level helpers shared by the lexer, the unescaper and the
//! string extensions: UTF-8 byte lengths, character classes and the
//! conversion of a `&str` into its characters.

use vstd::prelude::*;

verus! {

/// The number of bytes in the UTF-8 encoding of `c`.
pub open spec fn char_len_utf8(c: char) -> nat {
    if (c as u32) < 0x80 {
        1
    } else if (c as u32) < 0x800 {
        2
    } else if (c as u32) < 0x10000 {
        3
    } else {
        4
    }
}

/// The number of bytes in the UTF-8 encoding of `s`.
pub open spec fn utf8_len(s: Seq<char>) -> nat
    decreases s.len(),
{
    if s.len() == 0 {
        0
    } else {
        utf8_len(s.drop_last()) + char_len_utf8(s.last())
    }
}

/// The byte offset at which the character with index `k` of `s` starts.
pub open spec fn byte_offset(s: Seq<char>, k: int) -> nat {
    utf8_len(s.take(k))
}

/// Taking one more character adds that character's byte length.
pub proof fn lemma_byte_offset_step(s: Seq<char>, k: int)
    requires
        0 <= k < s.len(),
    ensures
        byte_offset(s, k + 1) == byte_offset(s, k) + char_len_utf8(s[k]),
{
    assert(s.take(k + 1).drop_last() =~= s.take(k));
}

/// No prefix is longer in bytes than the whole sequence.
pub proof fn lemma_byte_offset_bounded(s: Seq<char>, k: int)
    requires
        0 <= k <= s.len(),
    ensures
        byte_offset(s, k) <= utf8_len(s),
    decreases s.len() - k,
{
    if k < s.len() {
        lemma_byte_offset_step(s, k);
        lemma_byte_offset_bounded(s, k + 1);
    } else {
        assert(s.take(k) =~= s);
    }
}

/// Byte offsets grow with the character index and never pass the whole length.
pub proof fn lemma_byte_offset_mono(s: Seq<char>, j: int, k: int)
    requires
        0 <= j <= k <= s.len(),
    ensures
        byte_offset(s, j) <= byte_offset(s, k) <= utf8_len(s),
    decreases k - j,
{
    if j < k {
        lemma_byte_offset_step(s, j);
        lemma_byte_offset_mono(s, j + 1, k);
    } else {
        lemma_byte_offset_bounded(s, k);
    }
}

/// Every offset strictly inside a sequence is a character start, so two
/// different indices give two different offsets.
pub proof fn lemma_byte_offset_strict(s: Seq<char>, j: int, k: int)
    requires
        0 <= j < k <= s.len(),
    ensures
        byte_offset(s, j) < byte_offset(s, k),
{
    lemma_byte_offset_step(s, j);
    lemma_byte_offset_mono(s, j + 1, k);
}

/// The bytes of a piece of `s` are those between the offsets of its ends.
pub proof fn lemma_utf8_len_subrange(s: Seq<char>, a: int, b: int)
    requires
        0 <= a <= b <= s.len(),
    ensures
        utf8_len(s.subrange(a, b)) + byte_offset(s, a) == byte_offset(s, b),
        utf8_len(s.subrange(a, b)) <= utf8_len(s),
    decreases b - a,
{
    if a == b {
        assert(s.subrange(a, b) =~= Seq::<char>::empty());
    } else {
        lemma_utf8_len_subrange(s, a, b - 1);
        assert(s.subrange(a, b).drop_last() =~= s.subrange(a, b - 1));
        lemma_byte_offset_step(s, b - 1);
    }
    lemma_byte_offset_mono(s, b, s.len() as int);
    assert(s.take(s.len() as int) =~= s);
}

/// The byte length of `c` in UTF-8.
pub fn char_utf8_len(c: char) -> (n: usize)
    ensures
        n == char_len_utf8(c),
{
    let v = c as u32;
    if v < 0x80 {
        1
    } else if v < 0x800 {
        2
    } else if v < 0x10000 {
        3
    } else {
        4
    }
}

/// The byte offset of every character position of `s`, including the end.
pub fn byte_offsets(s: &Vec<char>) -> (offs: Vec<usize>)
    requires
        utf8_len(s@) <= usize::MAX,
    ensures
        offs.len() == s.len() + 1,
        forall|k: int| 0 <= k <= s.len() ==> #[trigger] offs@[k] == byte_offset(s@, k),
{
    let mut offs: Vec<usize> = Vec::new();
    let mut total: usize = 0;
    let mut k: usize = 0;
    assert(s@.take(0) =~= Seq::<char>::empty());
    while k < s.len()
        invariant
            k <= s.len(),
            utf8_len(s@) <= usize::MAX,
            offs.len() == k,
            total == byte_offset(s@, k as int),
            forall|m: int| 0 <= m < k ==> #[trigger] offs@[m] == byte_offset(s@, m),
        decreases s.len() - k,
    {
        offs.push(total);
        proof {
            lemma_byte_offset_step(s@, k as int);
            lemma_byte_offset_mono(s@, k + 1, s.len() as int);
        }
        total = total + char_utf8_len(s[k]);
        k = k + 1;
    }
    offs.push(total);
    offs
}

/// The byte length of `s` in UTF-8, when it fits in a `usize`.
pub fn utf8_len_checked(s: &str) -> (r: Option<usize>)
    ensures
        match r {
            Some(n) => n == utf8_len(s@),
            None => utf8_len(s@) > usize::MAX,
        },
{
    let cs = chars_of(s);
    let mut total: usize = 0;
    let mut k: usize = 0;
    assert(cs@.take(0) =~= Seq::<char>::empty());
    while k < cs.len()
        invariant
            k <= cs.len(),
            cs@ == s@,
            total == byte_offset(cs@, k as int),
        decreases cs.len() - k,
    {
        proof {
            lemma_byte_offset_step(cs@, k as int);
        }
        let w = char_utf8_len(cs[k]);
        if total > usize::MAX - w {
            proof {
                lemma_byte_offset_step(cs@, k as int);
                lemma_byte_offset_bounded(cs@, k + 1);
            }
            return None;
        }
        total = total + w;
        k = k + 1;
    }
    proof {
        assert(cs@.take(k as int) =~= cs@);
    }
    Some(total)
}

/// The string `a` followed by `b`.
pub fn concat(a: &str, b: &str) -> (r: String)
    ensures
        r@ == a@ + b@,
{
    let mut r = a.to_owned();
    r.append(b);
    r
}

/// Collects the characters of `s` into a vector.
pub fn chars_of(s: &str) -> (v: Vec<char>)
    ensures
        v@ == s@,
{
    let mut v: Vec<char> = Vec::new();
    for c in it: s.chars()
        invariant
            v@ == it.seq().take(it.index() as int),
            it.seq() == s@,
    {
        v.push(c);
    }
    v
}

/// The characters of `s` as a `String`.
pub fn string_of(s: &Vec<char>) -> (r: String)
    ensures
        r@ == s@,
{
    let mut r = String::new();
    let mut k: usize = 0;
    while k < s.len()
        invariant
            k <= s.len(),
            r@ == s@.take(k as int),
        decreases s.len() - k,
    {
        r.push(s[k]);
        proof {
            assert(s@.take(k + 1) =~= s@.take(k as int).push(s@[k as int]));
        }
        k = k + 1;
    }
    proof {
        assert(s@.take(s.len() as int) =~= s@);
    }
    r
}

/// `String::push`: its documentation says that it appends the given
/// character to the end of the string; the contract claims that and nothing more.
pub assume_specification[ std::string::String::push ](s: &mut std::string::String, ch: char)
    ensures
        final(s)@ == old(s)@.push(ch),
;

/// The decimal digits of `n`.
pub open spec fn decimal(n: nat) -> Seq<char>
    decreases n,
{
    if n < 10 {
        seq![(n + '0' as u32) as char]
    } else {
        decimal(n / 10).push(((n % 10) + '0' as u32) as char)
    }
}

/// `n` written in decimal, as `to_string` writes it.
pub fn decimal_string(n: usize) -> (r: String)
    ensures
        r@ == decimal(n as nat),
    decreases n,
{
    if n < 10 {
        let mut r = String::new();
        r.push(((n as u8) + 48u8) as char);
        r
    } else {
        let mut r = decimal_string(n / 10);
        r.push((((n % 10) as u8) + 48u8) as char);
        r
    }
}

/// `n` copies of `c`.
pub fn repeat_char(c: char, n: usize) -> (r: String)
    ensures
        r@ == Seq::new(n as nat, |i: int| c),
{
    let mut r = String::new();
    let mut k: usize = 0;
    while k < n
        invariant
            k <= n,
            r@ == Seq::new(k as nat, |i: int| c),
        decreases n - k,
    {
        r.push(c);
        k = k + 1;
        proof {
            assert(r@ =~= Seq::new(k as nat, |i: int| c));
        }
    }
    proof {
        assert(r@ =~= Seq::new(n as nat, |i: int| c));
    }
    r
}

/// Whether `c` is an ASCII character.
pub open spec fn is_ascii_char(c: char) -> bool {
    (c as u32) < 0x80
}

/// The value of `c` read as a hexadecimal digit.
pub open spec fn hex_digit(c: char) -> Option<u32> {
    if '0' <= c && c <= '9' {
        Some((c as u32 - '0' as u32) as u32)
    } else if 'a' <= c && c <= 'f' {
        Some((c as u32 - 'a' as u32 + 10) as u32)
    } else if 'A' <= c && c <= 'F' {
        Some((c as u32 - 'A' as u32 + 10) as u32)
    } else {
        None
    }
}

/// `char::to_digit(16)`: the value of a hexadecimal digit.
pub fn to_hex_digit(c: char) -> (r: Option<u32>)
    ensures
        r == hex_digit(c),
        r matches Some(d) ==> d < 16,
{
    if '0' <= c && c <= '9' {
        Some(c as u32 - '0' as u32)
    } else if 'a' <= c && c <= 'f' {
        Some(c as u32 - 'a' as u32 + 10)
    } else if 'A' <= c && c <= 'F' {
        Some(c as u32 - 'A' as u32 + 10)
    } else {
        None
    }
}

/// The Unicode `White_Space` property, which `char::is_whitespace` tests.
pub open spec fn is_unicode_whitespace(c: char) -> bool {
    let v = c as u32;
    ||| 0x09 <= v <= 0x0D
    ||| v == 0x20
    ||| v == 0x85
    ||| v == 0xA0
    ||| v == 0x1680
    ||| 0x2000 <= v <= 0x200A
    ||| v == 0x2028
    ||| v == 0x2029
    ||| v == 0x202F
    ||| v == 0x205F
    ||| v == 0x3000
}

/// Whether `c` has the Unicode `White_Space` property.
pub fn unicode_whitespace(c: char) -> (b: bool)
    ensures
        b == is_unicode_whitespace(c),
{
    let v = c as u32;
    (0x09 <= v && v <= 0x0D) || v == 0x20 || v == 0x85 || v == 0xA0 || v == 0x1680 || (0x2000
        <= v && v <= 0x200A) || v == 0x2028 || v == 0x2029 || v == 0x202F || v == 0x205F || v
        == 0x3000
}

/// Whether `v` is the code of a Unicode scalar value, i.e. of some `char`.
pub open spec fn is_char_code(v: nat) -> bool {
    v <= 0x10FFFF && !(0xD800 <= v <= 0xDFFF)
}

/// `char::from_u32`: the character whose code is `v`, if there is one.
/// Its documentation says that it returns `None` exactly when `v` is not a
/// valid `char` (above 0x10FFFF or a surrogate), and otherwise the character
/// whose code is `v`; that is what the contract claims.
#[verifier::external_body]
pub(crate) fn char_from_u32(v: u32) -> (r: Option<char>)
    ensures
        r is Some <==> is_char_code(v as nat),
        r matches Some(c) ==> c as u32 == v,
{
    char::from_u32(v)
}

} // verus!
