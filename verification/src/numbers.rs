//! Integer and real-number text: Rust's integer parsing and formatting, and the
//! syntax that Rust's `f64` parser accepts.
use vstd::prelude::*;
use crate::text::{chars_of, push_char, slice_chars};


verus! {

/// The value of `c` as a digit: 0-9 for ASCII digits, 10-35 for ASCII letters of
/// either case, and 99 (no digit in any radix) otherwise.
pub open spec fn digit_value(c: char) -> int {
    let u = c as u32;
    if 48 <= u <= 57 {
        u - 48
    } else if 97 <= u <= 122 {
        u - 87
    } else if 65 <= u <= 90 {
        u - 55
    } else {
        99
    }
}

pub open spec fn all_digits(s: Seq<char>, radix: int) -> bool {
    forall|i: int| 0 <= i < s.len() ==> #[trigger] digit_value(s[i]) < radix
}

/// The number that the digits of `s` write in the given radix, most significant first.
pub open spec fn digits_value(s: Seq<char>, radix: int) -> int
    decreases s.len(),
{
    if s.len() == 0 {
        0
    } else {
        digits_value(s.drop_last(), radix) * radix + digit_value(s.last())
    }
}

/// What Rust's `from_str_radix` gives for `s` on an integer type whose range is
/// `lo..=hi`: an optional `+` (or `-`, for a signed type) and at least one digit of
/// the radix; `None` where that syntax fails or the value is out of range.
pub open spec fn parse_int_spec(s: Seq<char>, radix: int, signed: bool, lo: int, hi: int) -> Option<int> {
    let has_sign = s.len() > 0 && (s[0] == '+' || (s[0] == '-' && signed));
    let neg = s.len() > 0 && s[0] == '-' && signed;
    let body = if has_sign { s.drop_first() } else { s };
    if body.len() == 0 || !all_digits(body, radix) {
        None
    } else {
        let v = if neg { -digits_value(body, radix) } else { digits_value(body, radix) };
        if lo <= v <= hi { Some(v) } else { None }
    }
}

/// `s.parse::<i32>()`.
pub open spec fn parse_i32_spec(s: Seq<char>) -> Option<int> {
    parse_int_spec(s, 10, true, i32::MIN as int, i32::MAX as int)
}

proof fn lemma_digits_value_nonneg(s: Seq<char>, radix: int)
    requires
        radix >= 1,
    ensures
        digits_value(s, radix) >= 0,
    decreases s.len(),
{
    if s.len() > 0 {
        lemma_digits_value_nonneg(s.drop_last(), radix);
        let x = digits_value(s.drop_last(), radix);
        assert(x * radix >= 0) by (nonlinear_arith)
            requires
                x >= 0,
                radix >= 1,
        ;
    }
}

proof fn lemma_digits_value_grows(s: Seq<char>, radix: int, k: int, j: int)
    requires
        radix >= 1,
        0 <= k <= j <= s.len(),
    ensures
        digits_value(s.take(j), radix) >= digits_value(s.take(k), radix),
    decreases j - k,
{
    if j > k {
        lemma_digits_value_grows(s, radix, k, j - 1);
        assert(s.take(j).drop_last() =~= s.take(j - 1));
        lemma_digits_value_nonneg(s.take(j - 1), radix);
        let x = digits_value(s.take(j - 1), radix);
        assert(x * radix >= x) by (nonlinear_arith)
            requires
                x >= 0,
                radix >= 1,
        ;
    }
}

fn digit_value_of(c: char) -> (d: u32)
    ensures
        d == digit_value(c),
{
    let u = c as u32;
    if 48 <= u && u <= 57 {
        u - 48
    } else if 97 <= u && u <= 122 {
        u - 87
    } else if 65 <= u && u <= 90 {
        u - 55
    } else {
        99
    }
}

/// Parses `s` as Rust's `from_str_radix` does for an integer type with range `lo..=hi`.
pub fn parse_int(s: &[char], radix: u32, signed: bool, lo: i128, hi: i128) -> (r: Option<i128>)
    requires
        2 <= radix <= 36,
        -0x1_0000_0000_0000_0000 <= lo,
        hi <= 0x1_0000_0000_0000_0000,
    ensures
        r matches Some(v) ==> parse_int_spec(s@, radix as int, signed, lo as int, hi as int)
            == Some(v as int),
        r is None ==> parse_int_spec(s@, radix as int, signed, lo as int, hi as int) is None,
{
    let n = s.len();
    let has_sign = n > 0 && (s[0] == '+' || (s[0] == '-' && signed));
    let neg = n > 0 && s[0] == '-' && signed;
    let start: usize = if has_sign { 1 } else { 0 };
    let ghost body = if has_sign { s@.drop_first() } else { s@ };
    assert(has_sign == (s@.len() > 0 && (s@[0] == '+' || (s@[0] == '-' && signed))));
    assert(neg == (s@.len() > 0 && s@[0] == '-' && signed));
    assert(body =~= s@.skip(start as int));
    if start == n {
        return None;
    }
    let mut acc: i128 = 0;
    let mut i: usize = start;
    while i < n
        invariant
            start <= i <= n == s@.len(),
            body == s@.skip(start as int),
            body == (if has_sign { s@.drop_first() } else { s@ }),
            has_sign == (s@.len() > 0 && (s@[0] == '+' || (s@[0] == '-' && signed))),
            neg == (s@.len() > 0 && s@[0] == '-' && signed),
            -0x1_0000_0000_0000_0000 <= lo,
            hi <= 0x1_0000_0000_0000_0000,
            2 <= radix <= 36,
            0 <= acc <= 0x1_0000_0000_0000_0000,
            acc == digits_value(body.take(i - start), radix as int),
            all_digits(body.take(i - start), radix as int),
        decreases n - i,
    {
        let d = digit_value_of(s[i]);
        if d >= radix {
            assert(body[i - start] == s@[i as int]);
            assert(!all_digits(body, radix as int));
            return None;
        }
        let ghost k = i - start;
        assert(body.take(k + 1).drop_last() =~= body.take(k));
        assert(body.take(k + 1).last() == s@[i as int]);
        assert(acc * (radix as i128) <= 0x1_0000_0000_0000_0000 * 36) by (nonlinear_arith)
            requires
                0 <= acc <= 0x1_0000_0000_0000_0000,
                2 <= radix <= 36,
        ;
        assert(acc * (radix as i128) >= 0) by (nonlinear_arith)
            requires
                0 <= acc,
                2 <= radix,
        ;
        let next = acc * (radix as i128) + (d as i128);
        assert(all_digits(body.take(k + 1), radix as int)) by {
            assert forall|j: int| 0 <= j < k + 1 implies #[trigger] digit_value(
                body.take(k + 1)[j],
            ) < radix by {
                if j < k {
                    assert(body.take(k + 1)[j] == body.take(k)[j]);
                }
            }
        }
        if next > 0x1_0000_0000_0000_0000 {
            proof {
                lemma_digits_value_grows(body, radix as int, k + 1, body.len() as int);
                assert(body.take(body.len() as int) =~= body);
            }
            return None;
        }
        acc = next;
        i = i + 1;
    }
    assert(body.take(n - start) =~= body);
    let v: i128 = if neg { -acc } else { acc };
    if lo <= v && v <= hi {
        Some(v)
    } else {
        None
    }
}

/// `s.parse::<i32>()`.
pub fn parse_i32(s: &[char]) -> (r: Option<i32>)
    ensures
        r matches Some(v) ==> parse_i32_spec(s@) == Some(v as int),
        r is None ==> parse_i32_spec(s@) is None,
{
    match parse_int(s, 10, true, i32::MIN as i128, i32::MAX as i128) {
        Some(v) => Some(v as i32),
        None => None,
    }
}

/// The ASCII lower-case form of `c` (other characters unchanged).
pub open spec fn ascii_lower(c: char) -> char {
    if 65 <= (c as u32) <= 90 {
        ((c as u32) + 32) as char
    } else {
        c
    }
}

/// Equality of `a` and `b` up to ASCII case (`str::eq_ignore_ascii_case`).
pub open spec fn eq_ignore_ascii_case(a: Seq<char>, b: Seq<char>) -> bool {
    a.len() == b.len() && forall|i: int| 0 <= i < a.len() ==> ascii_lower(#[trigger] a[i])
        == ascii_lower(b[i])
}

fn ascii_lower_of(c: char) -> (r: char)
    ensures
        r == ascii_lower(c),
{
    let u = c as u32;
    if 65 <= u && u <= 90 {
        ((u + 32) as u8) as char
    } else {
        c
    }
}

/// Whether `a` equals `b` up to ASCII case.
pub fn eq_ignore_case(a: &[char], b: &[char]) -> (r: bool)
    ensures
        r == eq_ignore_ascii_case(a@, b@),
{
    if a.len() != b.len() {
        return false;
    }
    let mut i: usize = 0;
    while i < a.len()
        invariant
            i <= a@.len() == b@.len(),
            forall|j: int| 0 <= j < i ==> ascii_lower(#[trigger] a@[j]) == ascii_lower(b@[j]),
        decreases a@.len() - i,
    {
        if ascii_lower_of(a[i]) != ascii_lower_of(b[i]) {
            return false;
        }
        i = i + 1;
    }
    true
}

/// The ASCII digit for `d` in `0..10`.
pub open spec fn digit_char(d: int) -> char {
    ((48 + d) as u8) as char
}

/// The decimal digits of `n`, most significant first, without leading zeros.
pub open spec fn dec_nat(n: nat) -> Seq<char>
    decreases n,
{
    if n < 10 {
        seq![digit_char(n as int)]
    } else {
        dec_nat(n / 10) + seq![digit_char((n % 10) as int)]
    }
}

/// The text that Rust's `Display` gives for an integer: `-` before the digits of a
/// negative number.
pub open spec fn dec_int(i: int) -> Seq<char> {
    if i < 0 {
        seq!['-'] + dec_nat((-i) as nat)
    } else {
        dec_nat(i as nat)
    }
}

fn push_dec(out: &mut String, n: u64)
    ensures
        final(out)@ == old(out)@ + dec_nat(n as nat),
    decreases n,
{
    if n >= 10 {
        push_dec(out, n / 10);
    }
    let d: u8 = (n % 10) as u8;
    push_char(out, (d + 48) as char);
    assert(final(out)@ =~= old(out)@ + dec_nat(n as nat));
}

/// Appends the decimal text of `i`.
pub fn push_i64(out: &mut String, i: i64)
    ensures
        final(out)@ == old(out)@ + dec_int(i as int),
{
    if i < 0 {
        push_char(out, '-');
        let m: u64 = (0i128 - (i as i128)) as u64;
        push_dec(out, m);
        assert(final(out)@ =~= old(out)@ + dec_int(i as int));
    } else {
        push_dec(out, i as u64);
    }
}

pub open spec fn is_digit(c: char) -> bool {
    48 <= (c as u32) <= 57
}

/// The index of the first `e` or `E` of `s`, or its length if it has none.
pub open spec fn first_exp(s: Seq<char>) -> nat
    decreases s.len(),
{
    if s.len() == 0 {
        0
    } else if s[0] == 'e' || s[0] == 'E' {
        0
    } else {
        1 + first_exp(s.drop_first())
    }
}

/// ASCII digits with at most one `.` among them, and at least one digit.
pub open spec fn mantissa_ok(m: Seq<char>) -> bool {
    &&& forall|i: int| 0 <= i < m.len() ==> is_digit(#[trigger] m[i]) || m[i] == '.'
    &&& forall|i: int, j: int|
        0 <= i < m.len() && 0 <= j < m.len() && #[trigger] m[i] == '.' && #[trigger] m[j] == '.'
            ==> i == j
    &&& exists|i: int| 0 <= i < m.len() && is_digit(#[trigger] m[i])
}

/// The digits of an exponent part `e`: what follows the `e` and its optional sign.
pub open spec fn exponent_digits(e: Seq<char>) -> Seq<char> {
    if e.len() > 1 && (e[1] == '+' || e[1] == '-') {
        e.skip(2)
    } else {
        e.skip(1)
    }
}

pub open spec fn all_dec_digits(d: Seq<char>) -> bool {
    forall|i: int| 0 <= i < d.len() ==> is_digit(#[trigger] d[i])
}

/// `e` or `E`, an optional sign, and at least one ASCII digit.
pub open spec fn exponent_ok(e: Seq<char>) -> bool {
    e.len() >= 1 && exponent_digits(e).len() > 0 && all_dec_digits(exponent_digits(e))
}

/// The texts that Rust's `f64` parser accepts: an optional sign, then `inf`,
/// `infinity` or `nan` in any ASCII case, or a decimal number (digits with at most
/// one point and at least one digit) with an optional exponent.
pub open spec fn real_text_ok(s: Seq<char>) -> bool {
    let t = if s.len() > 0 && (s[0] == '+' || s[0] == '-') {
        s.drop_first()
    } else {
        s
    };
    let k = first_exp(t);
    ||| eq_ignore_ascii_case(t, "inf"@)
    ||| eq_ignore_ascii_case(t, "infinity"@)
    ||| eq_ignore_ascii_case(t, "nan"@)
    ||| mantissa_ok(t.take(k as int)) && (k == t.len() || exponent_ok(t.skip(k as int)))
}

proof fn lemma_first_exp(t: Seq<char>, k: int)
    requires
        0 <= k <= t.len(),
        forall|j: int| 0 <= j < k ==> #[trigger] t[j] != 'e' && t[j] != 'E',
        k == t.len() || t[k] == 'e' || t[k] == 'E',
    ensures
        first_exp(t) == k,
    decreases k,
{
    if k > 0 {
        lemma_first_exp(t.drop_first(), k - 1);
    }
}

fn is_digit_char(c: char) -> (b: bool)
    ensures
        b == is_digit(c),
{
    48 <= (c as u32) && (c as u32) <= 57
}

fn mantissa_ok_chars(m: &[char]) -> (b: bool)
    ensures
        b == mantissa_ok(m@),
{
    let mut dots: usize = 0;
    let mut seen_digit = false;
    let ghost mut dot_at: int = -1;
    let ghost mut digit_at: int = -1;
    let mut i: usize = 0;
    while i < m.len()
        invariant
            i <= m@.len(),
            dots <= 1,
            forall|j: int| 0 <= j < i ==> is_digit(#[trigger] m@[j]) || m@[j] == '.',
            dots == 0 ==> forall|j: int| 0 <= j < i ==> #[trigger] m@[j] != '.',
            dots == 1 ==> 0 <= dot_at < i && m@[dot_at] == '.' && forall|j: int|
                0 <= j < i && #[trigger] m@[j] == '.' ==> j == dot_at,
            seen_digit ==> 0 <= digit_at < i && is_digit(m@[digit_at]),
            !seen_digit ==> forall|j: int| 0 <= j < i ==> !is_digit(#[trigger] m@[j]),
        decreases m@.len() - i,
    {
        let c = m[i];
        if is_digit_char(c) {
            seen_digit = true;
            proof {
                digit_at = i as int;
            }
        } else if c == '.' {
            if dots == 1 {
                assert(m@[dot_at] == '.' && m@[i as int] == '.' && dot_at != i);
                return false;
            }
            dots = 1;
            proof {
                dot_at = i as int;
            }
        } else {
            return false;
        }
        i = i + 1;
    }
    if seen_digit {
        assert(is_digit(m@[digit_at]));
    }
    seen_digit
}

fn exponent_ok_chars(e: &[char]) -> (b: bool)
    ensures
        b == exponent_ok(e@),
{
    if e.len() < 1 {
        return false;
    }
    let start: usize = if e.len() > 1 && (e[1] == '+' || e[1] == '-') {
        2
    } else {
        1
    };
    let ghost d = exponent_digits(e@);
    assert(d == e@.skip(start as int));
    if start >= e.len() {
        return false;
    }
    let mut i: usize = start;
    while i < e.len()
        invariant
            start <= i <= e@.len(),
            d == e@.skip(start as int),
            d == exponent_digits(e@),
            forall|j: int| 0 <= j < i - start ==> is_digit(#[trigger] d[j]),
        decreases e@.len() - i,
    {
        if !is_digit_char(e[i]) {
            assert(d[i - start] == e@[i as int]);
            return false;
        }
        i = i + 1;
    }
    true
}

/// Whether Rust's `f64` parser accepts `s`.
pub fn real_text_valid(s: &[char]) -> (b: bool)
    ensures
        b == real_text_ok(s@),
{
    let start: usize = if s.len() > 0 && (s[0] == '+' || s[0] == '-') {
        1
    } else {
        0
    };
    let t = slice_chars(s, start, s.len());
    assert(t@ =~= (if s@.len() > 0 && (s@[0] == '+' || s@[0] == '-') {
        s@.drop_first()
    } else {
        s@
    }));
    if eq_ignore_case(&t, &chars_of("inf")) || eq_ignore_case(&t, &chars_of("infinity"))
        || eq_ignore_case(&t, &chars_of("nan")) {
        return true;
    }
    let mut k: usize = 0;
    while k < t.len() && t[k] != 'e' && t[k] != 'E'
        invariant
            k <= t@.len(),
            forall|j: int| 0 <= j < k ==> #[trigger] t@[j] != 'e' && t@[j] != 'E',
        decreases t@.len() - k,
    {
        k = k + 1;
    }
    proof {
        lemma_first_exp(t@, k as int);
    }
    let m = slice_chars(&t, 0, k);
    assert(m@ =~= t@.take(k as int));
    if !mantissa_ok_chars(&m) {
        return false;
    }
    if k == t.len() {
        return true;
    }
    let e = slice_chars(&t, k, t.len());
    assert(e@ =~= t@.skip(k as int));
    exponent_ok_chars(&e)
}

} // verus!
