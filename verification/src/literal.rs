//! The text of number literals: integers in a radix, as `i128::from_str_radix`
//! reads them, and the grammar of decimal floats that `f64::from_str` accepts.

use vstd::prelude::*;

use crate::text::{chars_of, decimal};

verus! {

/// `char::to_digit(radix)`: the value of `c` as a digit in `radix` (at most 36).
pub open spec fn digit_value(c: char, radix: nat) -> Option<nat> {
    let v: int = if '0' <= c && c <= '9' {
        c as u32 - '0' as u32
    } else if 'a' <= c && c <= 'z' {
        c as u32 - 'a' as u32 + 10
    } else if 'A' <= c && c <= 'Z' {
        c as u32 - 'A' as u32 + 10
    } else {
        36
    };
    if v < radix {
        Some(v as nat)
    } else {
        None
    }
}

/// The value of the digits `d` in `radix`, if they all are digits.
pub open spec fn digits_value(d: Seq<char>, radix: nat) -> Option<nat>
    decreases d.len(),
{
    if d.len() == 0 {
        Some(0)
    } else {
        match (digits_value(d.drop_last(), radix), digit_value(d.last(), radix)) {
            (Some(a), Some(b)) => Some(a * radix + b),
            _ => None,
        }
    }
}

/// `i128::from_str_radix`: an optional sign followed by one or more digits,
/// whose value fits in an `i128`.
pub open spec fn spec_i128_from_str_radix(s: Seq<char>, radix: nat) -> Option<i128> {
    if s.len() == 0 {
        None
    } else {
        let neg = s[0] == '-';
        let d = if s[0] == '-' || s[0] == '+' {
            s.skip(1)
        } else {
            s
        };
        if d.len() == 0 {
            None
        } else {
            match digits_value(d, radix) {
                None => None,
                Some(v) => {
                    let x: int = if neg {
                        -(v as int)
                    } else {
                        v as int
                    };
                    if i128::MIN <= x <= i128::MAX {
                        Some(x as i128)
                    } else {
                        None
                    }
                },
            }
        }
    }
}

fn to_digit(c: char, radix: u32) -> (r: Option<u32>)
    requires
        2 <= radix <= 36,
    ensures
        r matches Some(v) ==> digit_value(c, radix as nat) == Some(v as nat),
        r is None ==> digit_value(c, radix as nat) is None,
{
    let v: u32 = if '0' <= c && c <= '9' {
        c as u32 - '0' as u32
    } else if 'a' <= c && c <= 'z' {
        c as u32 - 'a' as u32 + 10
    } else if 'A' <= c && c <= 'Z' {
        c as u32 - 'A' as u32 + 10
    } else {
        36
    };
    if v < radix {
        Some(v)
    } else {
        None
    }
}

/// A prefix of digits is worth no more than the whole.
proof fn lemma_digits_value_prefix(d: Seq<char>, radix: nat, k: int)
    requires
        1 <= radix,
        0 <= k <= d.len(),
        digits_value(d, radix) is Some,
    ensures
        digits_value(d.take(k), radix) is Some,
        digits_value(d.take(k), radix)->0 <= digits_value(d, radix)->0,
    decreases d.len() - k,
{
    if k == d.len() {
        assert(d.take(k) =~= d);
    } else {
        lemma_digits_value_prefix(d, radix, k + 1);
        let p = d.take(k + 1);
        assert(p.drop_last() =~= d.take(k));
        let a = digits_value(d.take(k), radix)->0;
        assert(a * radix >= a) by (nonlinear_arith)
            requires
                radix >= 1,
        ;
    }
}

/// The `i128` that `s` spells in `radix`, as `i128::from_str_radix` reads it.
pub fn i128_from_str_radix(s: &str, radix: u32) -> (r: Option<i128>)
    requires
        2 <= radix <= 36,
    ensures
        r == spec_i128_from_str_radix(s@, radix as nat),
{
    let cs = chars_of(s);
    if cs.len() == 0 {
        return None;
    }
    let neg = cs[0] == '-';
    let start: usize = if cs[0] == '-' || cs[0] == '+' {
        1
    } else {
        0
    };
    if cs.len() == start {
        proof {
            assert(cs@.skip(1).len() == 0);
        }
        return None;
    }
    let ghost d = cs@.skip(start as int);
    let mut value: u128 = 0;
    let mut k: usize = start;
    proof {
        if start == 0 {
            assert(d =~= s@);
        }
        assert(d.take(0) =~= Seq::<char>::empty());
    }
    while k < cs.len()
        invariant
            start <= k <= cs.len(),
            d == cs@.skip(start as int),
            d == (if s@[0] == '-' || s@[0] == '+' { s@.skip(1) } else { s@ }),
            cs@ == s@,
            cs.len() > start,
            neg == (cs@[0] == '-'),
            start == (if cs@[0] == '-' || cs@[0] == '+' { 1usize } else { 0usize }),
            2 <= radix <= 36,
            digits_value(d.take(k - start), radix as nat) == Some(value as nat),
        decreases cs.len() - k,
    {
        let ghost pre = d.take(k - start);
        proof {
            assert(d.take(k - start + 1).drop_last() =~= pre);
            assert(d.take(k - start + 1).last() == cs@[k as int]);
        }
        let digit = match to_digit(cs[k], radix) {
            Some(v) => v,
            None => {
                proof {
                    assert(digits_value(d.take(k - start + 1), radix as nat) is None);
                    if digits_value(d, radix as nat) is Some {
                        lemma_digits_value_prefix(d, radix as nat, k - start + 1);
                    }
                }
                return None;
            },
        };
        let next = match value.checked_mul(radix as u128) {
            Some(m) => m.checked_add(digit as u128),
            None => None,
        };
        match next {
            Some(n) => {
                value = n;
            },
            None => {
                proof {
                    let big = value as nat * radix as nat + digit as nat;
                    assert(big > u128::MAX) by (nonlinear_arith)
                        requires
                            value as nat * radix as nat > u128::MAX || value * radix + digit
                                > u128::MAX,
                            big == value as nat * radix as nat + digit as nat,
                    ;
                    if digits_value(d, radix as nat) is Some {
                        lemma_digits_value_prefix(d, radix as nat, k - start + 1);
                    }
                }
                return None;
            },
        }
        k = k + 1;
    }
    proof {
        assert(d.take(k - start) =~= d);
    }
    if neg {
        if value <= 0x8000_0000_0000_0000_0000_0000_0000_0000u128 {
            if value == 0x8000_0000_0000_0000_0000_0000_0000_0000u128 {
                Some(i128::MIN)
            } else {
                Some(-(value as i128))
            }
        } else {
            None
        }
    } else {
        if value <= 0x7fff_ffff_ffff_ffff_ffff_ffff_ffff_ffffu128 {
            Some(value as i128)
        } else {
            None
        }
    }
}

// ---------------------------------------------------------------------------
// Decimal floats.
// ---------------------------------------------------------------------------

/// The end of the run of decimal digits that starts at `p`.
pub open spec fn digit_run(s: Seq<char>, p: int) -> int
    decreases s.len() - p,
{
    if 0 <= p < s.len() && '0' <= s[p] && s[p] <= '9' {
        digit_run(s, p + 1)
    } else {
        p
    }
}

/// `c` in lower case, for ASCII letters.
pub open spec fn ascii_lower(c: char) -> char {
    if 'A' <= c && c <= 'Z' {
        ((c as u32) + 32) as char
    } else {
        c
    }
}

/// Whether `t` spells `w` (given in lower case), ignoring ASCII case.
pub open spec fn equals_ignoring_case(t: Seq<char>, w: Seq<char>) -> bool {
    t.len() == w.len() && forall|k: int| 0 <= k < t.len() ==> ascii_lower(#[trigger] t[k]) == w[k]
}

/// An exponent from position `p` to the end: `e` or `E`, an optional sign,
/// and one or more digits.
pub open spec fn is_exponent(t: Seq<char>, p: int) -> bool {
    &&& p < t.len()
    &&& (t[p] == 'e' || t[p] == 'E')
    &&& {
        let q = if p + 1 < t.len() && (t[p + 1] == '+' || t[p + 1] == '-') {
            p + 2
        } else {
            p + 1
        };
        q < t.len() && digit_run(t, q) == t.len()
    }
}

/// `Number ::= ( Digit+ | Digit+ '.' Digit* | Digit* '.' Digit+ ) Exp?`
pub open spec fn is_unsigned_number(t: Seq<char>) -> bool {
    let d1 = digit_run(t, 0);
    let (mantissa, rest) = if d1 < t.len() && t[d1] == '.' {
        let d2 = digit_run(t, d1 + 1);
        (d1 > 0 || d2 > d1 + 1, d2)
    } else {
        (d1 > 0, d1)
    };
    mantissa && (rest == t.len() || is_exponent(t, rest))
}

/// Whether `f64::from_str` accepts `s`, by the grammar in its documentation:
/// `Float ::= Sign? ( 'inf' | 'infinity' | 'nan' | Number )`, the words in
/// any case.
pub open spec fn is_float_text(s: Seq<char>) -> bool {
    let t = if s.len() > 0 && (s[0] == '+' || s[0] == '-') {
        s.skip(1)
    } else {
        s
    };
    ||| equals_ignoring_case(t, seq!['i', 'n', 'f'])
    ||| equals_ignoring_case(t, seq!['i', 'n', 'f', 'i', 'n', 'i', 't', 'y'])
    ||| equals_ignoring_case(t, seq!['n', 'a', 'n'])
    ||| is_unsigned_number(t)
}

fn digit_run_exec(t: &Vec<char>, p: usize) -> (e: usize)
    requires
        p <= t.len(),
    ensures
        e == digit_run(t@, p as int),
        p <= e <= t.len(),
{
    let mut e = p;
    while e < t.len() && '0' <= t[e] && t[e] <= '9'
        invariant
            p <= e <= t.len(),
            digit_run(t@, p as int) == digit_run(t@, e as int),
        decreases t.len() - e,
    {
        e = e + 1;
    }
    e
}

fn lower(c: char) -> (r: char)
    ensures
        r == ascii_lower(c),
{
    if 'A' <= c && c <= 'Z' {
        ((c as u8) + 32) as char
    } else {
        c
    }
}

fn equals_word(t: &Vec<char>, from: usize, w: &[char]) -> (b: bool)
    requires
        from <= t.len(),
    ensures
        b == equals_ignoring_case(t@.skip(from as int), w@),
{
    if t.len() - from != w.len() {
        return false;
    }
    let mut k: usize = 0;
    while k < w.len()
        invariant
            k <= w.len(),
            from <= t.len(),
            t.len() - from == w@.len(),
            forall|m: int| 0 <= m < k ==> ascii_lower(#[trigger] t@.skip(from as int)[m]) == w@[m],
        decreases w.len() - k,
    {
        if lower(t[from + k]) != w[k] {
            proof {
                assert(t@.skip(from as int)[k as int] == t@[from + k]);
            }
            return false;
        }
        k = k + 1;
    }
    true
}

/// Whether `f64::from_str` accepts `s` (see `is_float_text`).
pub fn is_float_literal(s: &str) -> (b: bool)
    ensures
        b == is_float_text(s@),
{
    let cs = chars_of(s);
    let from: usize = if cs.len() > 0 && (cs[0] == '+' || cs[0] == '-') {
        1
    } else {
        0
    };
    let ghost t = cs@.skip(from as int);
    proof {
        assert(from == 0 ==> t =~= cs@);
        assert(['i', 'n', 'f']@ =~= seq!['i', 'n', 'f']);
        assert(['i', 'n', 'f', 'i', 'n', 'i', 't', 'y']@ =~= seq!['i', 'n', 'f', 'i', 'n', 'i', 't', 'y']);
        assert(['n', 'a', 'n']@ =~= seq!['n', 'a', 'n']);
    }
    if equals_word(&cs, from, &['i', 'n', 'f']) || equals_word(&cs, from, &['i', 'n', 'f', 'i', 'n', 'i', 't', 'y'])
        || equals_word(&cs, from, &['n', 'a', 'n']) {
        return true;
    }
    // the number form, on the characters after the sign
    let mut u: Vec<char> = Vec::new();
    let mut k = from;
    while k < cs.len()
        invariant
            from <= k <= cs.len(),
            u@ == cs@.subrange(from as int, k as int),
        decreases cs.len() - k,
    {
        u.push(cs[k]);
        k = k + 1;
    }
    proof {
        assert(u@ =~= t);
    }
    let d1 = digit_run_exec(&u, 0);
    let (mantissa, rest) = if d1 < u.len() && u[d1] == '.' {
        let d2 = digit_run_exec(&u, d1 + 1);
        (d1 > 0 || d2 > d1 + 1, d2)
    } else {
        (d1 > 0, d1)
    };
    if !mantissa {
        return false;
    }
    if rest == u.len() {
        return true;
    }
    if u[rest] != 'e' && u[rest] != 'E' {
        return false;
    }
    let q = if rest + 1 < u.len() && (u[rest + 1] == '+' || u[rest + 1] == '-') {
        rest + 2
    } else {
        rest + 1
    };
    q < u.len() && digit_run_exec(&u, q) == u.len()
}

/// The decimal text of a number reads back as that number, digit by digit
/// and as an integer in radix 10 (behind a minus sign, as its negative)
/// wherever that fits an `i128`; it starts with `0` only for 0.
pub proof fn lemma_decimal_reads_back(n: nat)
    ensures
        decimal(n).len() >= 1,
        digits_value(decimal(n), 10) == Some(n),
        decimal(n)[0] == '0' ==> n == 0,
        n <= i128::MAX ==> spec_i128_from_str_radix(decimal(n), 10) == Some(n as i128),
        n <= i128::MAX + 1 ==> spec_i128_from_str_radix(seq!['-'] + decimal(n), 10) == Some((-(n as int)) as i128),
    decreases n,
{
    lemma_decimal_digits(n);
    let d = decimal(n);
    assert(d[0] != '-' && d[0] != '+');
    let m = seq!['-'] + d;
    assert(m.skip(1) =~= d);
}

/// The characters of the decimal text of a number are digits.
proof fn lemma_decimal_digits(n: nat)
    ensures
        decimal(n).len() >= 1,
        digits_value(decimal(n), 10) == Some(n),
        decimal(n)[0] == '0' ==> n == 0,
        forall|i: int| 0 <= i < decimal(n).len() ==> '0' <= #[trigger] decimal(n)[i] <= '9',
    decreases n,
{
    let d = decimal(n);
    if n < 10 {
        assert(d.drop_last() =~= Seq::<char>::empty());
        assert(digits_value(d.drop_last(), 10) == Some(0nat));
    } else {
        lemma_decimal_digits(n / 10);
        assert(d.drop_last() =~= decimal(n / 10));
        assert(d[0] == decimal(n / 10)[0]);
        assert forall|i: int| 0 <= i < d.len() implies '0' <= #[trigger] d[i] <= '9' by {
            if i < d.len() - 1 {
                assert(d[i] == decimal(n / 10)[i]);
            }
        }
        assert(n == (n / 10) * 10 + n % 10);
    }
}

} // verus!
