//! Decimal numbers: writing them out and reading them back as `str::parse` does.
use vstd::prelude::*;

verus! {

/// The character of a decimal digit.
pub open spec fn digit_char(d: int) -> char {
    ((48 + d) as u8) as char
}

/// Whether `c` is an ASCII digit.
pub open spec fn is_digit(c: char) -> bool {
    '0' <= c && c <= '9'
}

/// The value of an ASCII digit.
pub open spec fn digit_value(c: char) -> int {
    c as int - 48
}

/// The decimal digits of `n`, without leading zeros.
pub open spec fn dec(n: nat) -> Seq<char>
    decreases n,
{
    if n < 10 {
        seq![digit_char(n as int)]
    } else {
        dec(n / 10).push(digit_char(n as int % 10))
    }
}

/// `i` in decimal, with a leading `-` when negative.
pub open spec fn dec_int(i: int) -> Seq<char> {
    if i < 0 {
        seq!['-'] + dec((-i) as nat)
    } else {
        dec(i as nat)
    }
}

/// Whether every character of `s` is an ASCII digit.
pub open spec fn all_digits(s: Seq<char>) -> bool {
    forall|i: int| 0 <= i < s.len() ==> #[trigger] is_digit(s[i])
}

/// The value of a string of digits.
pub open spec fn digits_value(s: Seq<char>) -> int
    decreases s.len(),
{
    if s.len() == 0 {
        0
    } else {
        10 * digits_value(s.drop_last()) + digit_value(s.last())
    }
}

/// The digits of a number after an optional sign.
pub open spec fn unsigned_part(s: Seq<char>) -> Seq<char> {
    if s.len() > 0 && (s[0] == '+' || s[0] == '-') {
        s.drop_first()
    } else {
        s
    }
}

/// `u32::from_str`: an optional `+` and at least one digit, within `u32`.
pub open spec fn parse_u32_spec(s: Seq<char>) -> Option<u32> {
    let body = unsigned_part(s);
    if s.len() > 0 && s[0] == '-' {
        None
    } else if body.len() > 0 && all_digits(body) && digits_value(body) <= u32::MAX {
        Some(digits_value(body) as u32)
    } else {
        None
    }
}

/// `i32::from_str`: an optional sign and at least one digit, within `i32`.
pub open spec fn parse_i32_spec(s: Seq<char>) -> Option<i32> {
    let body = unsigned_part(s);
    let negative = s.len() > 0 && s[0] == '-';
    if body.len() > 0 && all_digits(body) {
        if negative && digits_value(body) <= 0x8000_0000 {
            Some((-digits_value(body)) as i32)
        } else if !negative && digits_value(body) <= i32::MAX {
            Some(digits_value(body) as i32)
        } else {
            None
        }
    } else {
        None
    }
}

proof fn lemma_digits_value_nonneg(s: Seq<char>)
    requires
        all_digits(s),
    ensures
        digits_value(s) >= 0,
    decreases s.len(),
{
    if s.len() > 0 {
        assert(is_digit(s[s.len() - 1]));
        lemma_digits_value_nonneg(s.drop_last());
    }
}

/// A longer string of digits is worth at least as much as its prefix.
proof fn lemma_digits_value_prefix(s: Seq<char>, k: int)
    requires
        all_digits(s),
        0 <= k <= s.len(),
    ensures
        digits_value(s.take(k)) <= digits_value(s),
    decreases s.len() - k,
{
    if k < s.len() {
        assert(s.take(k + 1).drop_last() =~= s.take(k));
        assert(is_digit(s[k]));
        lemma_digits_value_nonneg(s.take(k));
        lemma_digits_value_prefix(s, k + 1);
    } else {
        assert(s.take(k) =~= s);
    }
}

/// The decimal digits of `n` read back as `n`.
pub proof fn lemma_dec_digits(n: nat)
    ensures
        dec(n).len() > 0,
        all_digits(dec(n)),
        digits_value(dec(n)) == n,
    decreases n,
{
    let d = n as int % 10;
    assert(digit_value(digit_char(d)) == d && is_digit(digit_char(d))) by {
        assert(0 <= d < 10);
        assert(((48 + d) as u8) as int == 48 + d);
    }
    if n < 10 {
        assert(dec(n).drop_last() =~= Seq::<char>::empty());
        assert(digits_value(dec(n)) == 10 * digits_value(dec(n).drop_last()) + digit_value(dec(n).last()));
        assert(d == n);
    } else {
        lemma_dec_digits(n / 10);
        let s = dec(n);
        assert(s.drop_last() =~= dec(n / 10));
        assert(10 * (n as int / 10) + n as int % 10 == n) by (nonlinear_arith);
        assert(s.last() == digit_char(d));
        assert(digits_value(s) == 10 * digits_value(s.drop_last()) + digit_value(s.last()));
        assert(digits_value(s) == 10 * (n / 10) + d);
        assert forall|i: int| 0 <= i < s.len() implies #[trigger] is_digit(s[i]) by {
            if i < s.len() - 1 {
                assert(s[i] == dec(n / 10)[i]);
            }
        }
    }
}

/// Writing a number in decimal and reading it back with `u32::from_str` gives the number.
pub proof fn lemma_parse_u32_dec(n: u32)
    ensures
        parse_u32_spec(dec(n as nat)) == Some(n),
{
    lemma_dec_digits(n as nat);
    assert(is_digit(dec(n as nat)[0]));
}

/// Writing a non-negative number in decimal and reading it back with `i32::from_str` gives
/// the number.
pub proof fn lemma_parse_i32_dec(n: i32)
    requires
        n >= 0,
    ensures
        parse_i32_spec(dec_int(n as int)) == Some(n),
{
    lemma_dec_digits(n as nat);
    assert(is_digit(dec(n as nat)[0]));
}

fn digit(d: u64) -> (c: char)
    requires
        d < 10,
    ensures
        c == digit_char(d as int),
        is_digit(c),
{
    ((48 + d) as u8) as char
}

/// Appends the decimal digits of `n` to `out`.
pub fn push_decimal(out: &mut Vec<char>, n: u64)
    ensures
        final(out)@ == old(out)@ + dec(n as nat),
    decreases n,
{
    if n >= 10 {
        push_decimal(out, n / 10);
    }
    let c = digit(n % 10);
    out.push(c);
    proof {
        if n >= 10 {
            assert(dec(n as nat) == dec((n / 10) as nat).push(digit_char(n as int % 10)));
        }
    }
}

/// Appends `i` in decimal to `out`, with a leading `-` when negative.
pub fn push_signed(out: &mut Vec<char>, i: i64)
    ensures
        final(out)@ == old(out)@ + dec_int(i as int),
{
    if i < 0 {
        out.push('-');
        let m: u64 = if i == i64::MIN { 0x8000_0000_0000_0000 } else { (-i) as u64 };
        let ghost mid = out@;
        push_decimal(out, m);
        assert(out@ =~= old(out)@ + (seq!['-'] + dec(m as nat)));
    } else {
        push_decimal(out, i as u64);
    }
}

/// Reads the digits of `s` after position `start` as a value at most `limit`; `None` when a
/// character is not a digit, when there is no digit, or when the value exceeds `limit`.
fn digits_up_to(s: &[char], start: usize, limit: u64) -> (r: Option<u64>)
    requires
        start <= s.len(),
        limit <= 0x1_0000_0000,
    ensures
        match r {
            Some(v) => s@.skip(start as int).len() > 0 && all_digits(s@.skip(start as int)) && v == digits_value(
                s@.skip(start as int),
            ) && v <= limit,
            None => !(s@.skip(start as int).len() > 0 && all_digits(s@.skip(start as int)) && digits_value(
                s@.skip(start as int),
            ) <= limit),
        },
{
    let ghost body = s@.skip(start as int);
    if start == s.len() {
        return None;
    }
    let mut acc: u64 = 0;
    let mut i: usize = start;
    while i < s.len()
        invariant
            start <= i <= s.len(),
            body == s@.skip(start as int),
            limit <= 0x1_0000_0000,
            all_digits(body.take(i - start)),
            acc == digits_value(body.take(i - start)),
            acc <= limit,
        decreases s.len() - i,
    {
        let c = s[i];
        assert(body[i - start] == c);
        if !('0' <= c && c <= '9') {
            assert(!all_digits(body)) by {
                assert(!is_digit(body[i - start]));
            }
            return None;
        }
        let d = (c as u32 - 48) as u64;
        assert(body.take(i - start + 1).drop_last() =~= body.take(i - start));
        assert(all_digits(body.take(i - start + 1)));
        let next = acc * 10 + d;
        if next > limit {
            proof {
                if all_digits(body) {
                    lemma_digits_value_prefix(body, i - start + 1);
                }
            }
            return None;
        }
        acc = next;
        i = i + 1;
    }
    assert(body.take(i - start) =~= body);
    Some(acc)
}

/// `u32::from_str` on a string of characters.
pub fn parse_u32(s: &[char]) -> (r: Option<u32>)
    ensures
        r == parse_u32_spec(s@),
{
    if s.len() > 0 && s[0] == '-' {
        return None;
    }
    let start: usize = if s.len() > 0 && s[0] == '+' { 1 } else { 0 };
    assert(unsigned_part(s@) =~= s@.skip(start as int));
    match digits_up_to(s, start, 0xffff_ffff) {
        Some(v) => Some(v as u32),
        None => None,
    }
}

/// `i32::from_str` on a string of characters.
pub fn parse_i32(s: &[char]) -> (r: Option<i32>)
    ensures
        r == parse_i32_spec(s@),
{
    let negative = s.len() > 0 && s[0] == '-';
    let start: usize = if s.len() > 0 && (s[0] == '+' || s[0] == '-') { 1 } else { 0 };
    assert(unsigned_part(s@) =~= s@.skip(start as int));
    if negative {
        match digits_up_to(s, start, 0x8000_0000) {
            Some(v) => Some((-(v as i64)) as i32),
            None => None,
        }
    } else {
        match digits_up_to(s, start, 0x7fff_ffff) {
            Some(v) => Some(v as i32),
            None => None,
        }
    }
}

} // verus!
