//! Parsing and printing of unsigned integers in text form.
use vstd::prelude::*;

verus! {

/// Digit value of `c`, or 99 when `c` is no digit in any supported radix.
pub open spec fn digit_val(c: char) -> int {
    if '0' <= c && c <= '9' {
        c as int - '0' as int
    } else if 'a' <= c && c <= 'z' {
        c as int - 'a' as int + 10
    } else if 'A' <= c && c <= 'Z' {
        c as int - 'A' as int + 10
    } else {
        99
    }
}

pub open spec fn all_digits(s: Seq<char>, radix: int) -> bool {
    forall|i: int| 0 <= i < s.len() ==> digit_val(#[trigger] s[i]) < radix
}

/// The number written by the digits `s` in base `radix`.
pub open spec fn digits_value(s: Seq<char>, radix: int) -> int
    decreases s.len(),
{
    if s.len() == 0 {
        0
    } else {
        digits_value(s.drop_last(), radix) * radix + digit_val(s.last())
    }
}

/// The digits of an unsigned literal, without an optional leading `+`.
pub open spec fn unsigned_body(s: Seq<char>) -> Seq<char> {
    if s.len() > 0 && s[0] == '+' {
        s.drop_first()
    } else {
        s
    }
}

/// `from_str_radix` for an unsigned type whose largest value is `max`.
pub open spec fn parse_unsigned(s: Seq<char>, radix: int, max: int) -> Option<int> {
    let b = unsigned_body(s);
    if b.len() == 0 || !all_digits(b, radix) || digits_value(b, radix) > max {
        None
    } else {
        Some(digits_value(b, radix))
    }
}

pub proof fn lemma_digits_value_nonneg(s: Seq<char>, radix: int)
    requires
        all_digits(s, radix),
        radix >= 1,
    ensures
        digits_value(s, radix) >= 0,
    decreases s.len(),
{
    if s.len() > 0 {
        assert(all_digits(s.drop_last(), radix));
        lemma_digits_value_nonneg(s.drop_last(), radix);
        let v = digits_value(s.drop_last(), radix);
        assert(v * radix >= 0) by (nonlinear_arith)
            requires
                v >= 0,
                radix >= 1,
        ;
        assert(digit_val(s[s.len() - 1]) >= 0);
    }
}

/// A prefix of a digit string never denotes a larger number than the whole.
pub proof fn lemma_digits_prefix_le(s: Seq<char>, k: int, radix: int)
    requires
        all_digits(s, radix),
        radix >= 1,
        0 <= k <= s.len(),
    ensures
        digits_value(s.take(k), radix) <= digits_value(s, radix),
    decreases s.len(),
{
    if k < s.len() {
        let d = s.drop_last();
        assert(all_digits(d, radix));
        assert(d.take(k) =~= s.take(k));
        lemma_digits_prefix_le(d, k, radix);
        lemma_digits_value_nonneg(d, radix);
        let v = digits_value(d, radix);
        assert(v * radix >= v) by (nonlinear_arith)
            requires
                v >= 0,
                radix >= 1,
        ;
        assert(digit_val(s[s.len() - 1]) >= 0);
    } else {
        assert(s.take(k) =~= s);
    }
}

pub fn digit_of(c: char) -> (d: u64)
    ensures
        d == digit_val(c),
{
    if '0' <= c && c <= '9' {
        (c as u32 - '0' as u32) as u64
    } else if 'a' <= c && c <= 'z' {
        (c as u32 - 'a' as u32 + 10) as u64
    } else if 'A' <= c && c <= 'Z' {
        (c as u32 - 'A' as u32 + 10) as u64
    } else {
        99
    }
}

/// Parses an unsigned number in base `radix` (2..=36) whose value may not exceed `max`.
pub fn parse_unsigned_exec(v: &Vec<char>, radix: u64, max: u64) -> (r: Option<u64>)
    requires
        2 <= radix <= 36,
    ensures
        r matches Some(n) ==> parse_unsigned(v@, radix as int, max as int) == Some(n as int),
        r is None ==> parse_unsigned(v@, radix as int, max as int) is None,
{
    let start: usize = if v.len() > 0 && v[0] == '+' {
        1
    } else {
        0
    };
    let ghost b = unsigned_body(v@);
    assert(b =~= v@.skip(start as int));
    if start >= v.len() {
        return None;
    }
    let mut acc: u64 = 0;
    let mut i: usize = start;
    while i < v.len()
        invariant
            start <= i <= v@.len(),
            b == v@.skip(start as int),
            b == unsigned_body(v@),
            b.len() > 0,
            2 <= radix <= 36,
            acc as int == digits_value(b.take(i - start), radix as int),
            acc <= max,
            all_digits(b.take(i - start), radix as int),
        decreases v@.len() - i,
    {
        let d = digit_of(v[i]);
        let ghost k = i - start;
        assert(b[k] == v@[i as int]);
        if d >= radix {
            assert(!all_digits(b, radix as int));
            return None;
        }
        assert(b.take(k + 1).drop_last() =~= b.take(k));
        assert(b.take(k + 1).last() == v@[i as int]);
        if d > max || acc > (max - d) / radix {
            proof {
                let q = (max - d) as int / radix as int;
                if d <= max {
                    assert(acc * radix + d > max) by (nonlinear_arith)
                        requires
                            acc > q,
                            q == (max - d) as int / radix as int,
                            radix >= 2,
                            d <= max,
                    ;
                }
                assert(acc * radix + d > max) by (nonlinear_arith)
                    requires
                        d > max ==> acc * radix + d > max,
                        d <= max ==> acc * radix + d > max,
                ;
                assert(all_digits(b.take(k + 1), radix as int));
                if all_digits(b, radix as int) {
                    lemma_digits_prefix_le(b, k + 1, radix as int);
                }
            }
            return None;
        }
        proof {
            let q = (max - d) as int / radix as int;
            assert(acc * radix + d <= max) by (nonlinear_arith)
                requires
                    acc <= q,
                    q == (max - d) as int / radix as int,
                    radix >= 2,
                    d <= max,
            ;
        }
        acc = acc * radix + d;
        i = i + 1;
        assert(all_digits(b.take(i - start), radix as int));
    }
    assert(b.take(i - start) =~= b);
    Some(acc)
}

/// The character of digit `d` (lower-case letters above nine).
pub open spec fn digit_char(d: int) -> char {
    if d < 10 {
        (d + 48) as char
    } else {
        (d + 87) as char
    }
}

/// The digits of `n` in base `radix`, most significant first, without leading zeros.
pub open spec fn radix_digits(n: nat, radix: nat) -> Seq<char>
    decreases n,
{
    if n < radix || radix < 2 {
        seq![digit_char(n as int)]
    } else {
        proof {
            assert(n / radix < n) by (nonlinear_arith)
                requires
                    n >= radix,
                    radix >= 2,
            ;
        }
        radix_digits(n / radix, radix) + seq![digit_char((n % radix) as int)]
    }
}

/// `digits` left-padded with `pad` to at least `width` characters.
pub open spec fn pad_left(digits: Seq<char>, width: int, pad: char) -> Seq<char> {
    if digits.len() >= width {
        digits
    } else {
        Seq::new((width - digits.len()) as nat, |i: int| pad) + digits
    }
}

pub fn digit_char_exec(d: u64) -> (c: char)
    requires
        d < 36,
    ensures
        c == digit_char(d as int),
{
    let table: [char; 36] = [
        '0', '1', '2', '3', '4', '5', '6', '7', '8', '9', 'a', 'b', 'c', 'd', 'e', 'f', 'g',
        'h', 'i', 'j', 'k', 'l', 'm', 'n', 'o', 'p', 'q', 'r', 's', 't', 'u', 'v', 'w', 'x', 'y',
        'z',
    ];
    let c = table[d as usize];
    assert(c == digit_char(d as int)) by {
        assert(table@[d as int] == c);
    }
    c
}

/// Writes `n` in base `radix`.
pub fn radix_digits_exec(n: u128, radix: u128) -> (r: Vec<char>)
    requires
        2 <= radix <= 36,
    ensures
        r@ == radix_digits(n as nat, radix as nat),
        r@.len() >= 1,
    decreases n,
{
    if n < radix {
        let c = digit_char_exec(n as u64);
        let mut r: Vec<char> = Vec::new();
        r.push(c);
        assert(r@ =~= radix_digits(n as nat, radix as nat));
        r
    } else {
        assert(n / radix < n) by (nonlinear_arith)
            requires
                n >= radix,
                radix >= 2,
        ;
        let mut r = radix_digits_exec(n / radix, radix);
        let c = digit_char_exec((n % radix) as u64);
        r.push(c);
        r
    }
}

/// Left-pads `digits` with `pad` up to `width` characters.
pub fn pad_left_exec(digits: Vec<char>, width: usize, pad: char) -> (r: Vec<char>)
    ensures
        r@ == pad_left(digits@, width as int, pad),
{
    if digits.len() >= width {
        return digits;
    }
    let n = width - digits.len();
    let mut r: Vec<char> = Vec::new();
    let mut i: usize = 0;
    while i < n
        invariant
            i <= n,
            r@ == Seq::new(i as nat, |k: int| pad),
        decreases n - i,
    {
        r.push(pad);
        i = i + 1;
        assert(r@ =~= Seq::new(i as nat, |k: int| pad));
    }
    crate::text::append_vec(&mut r, &digits);
    r
}

} // verus!
