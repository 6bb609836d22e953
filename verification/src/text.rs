//! Text the dump is built of: numbers in decimal and hexadecimal, and pieces of strings.
use vstd::prelude::*;
use vstd::string::*;

verus! {

/// The decimal digit for `d`.
pub open spec fn digit_char(d: int) -> char {
    if d == 0 {
        '0'
    } else if d == 1 {
        '1'
    } else if d == 2 {
        '2'
    } else if d == 3 {
        '3'
    } else if d == 4 {
        '4'
    } else if d == 5 {
        '5'
    } else if d == 6 {
        '6'
    } else if d == 7 {
        '7'
    } else if d == 8 {
        '8'
    } else if d == 9 {
        '9'
    } else if d == 10 {
        'a'
    } else if d == 11 {
        'b'
    } else if d == 12 {
        'c'
    } else if d == 13 {
        'd'
    } else if d == 14 {
        'e'
    } else {
        'f'
    }
}

/// `n` written out in decimal, without leading zeros.
pub open spec fn decimal(n: nat) -> Seq<char>
    decreases n,
{
    if n < 10 {
        seq![digit_char(n as int)]
    } else {
        decimal(n / 10).push(digit_char((n % 10) as int))
    }
}

/// `n` written out in lowercase hexadecimal, without leading zeros.
pub open spec fn hexadecimal(n: nat) -> Seq<char>
    decreases n,
{
    if n < 16 {
        seq![digit_char(n as int)]
    } else {
        hexadecimal(n / 16).push(digit_char((n % 16) as int))
    }
}

/// The digit for `d`, as text.
pub fn digit_text(d: u64) -> (r: &'static str)
    requires
        d < 16,
    ensures
        r@ == seq![digit_char(d as int)],
{
    proof {
        reveal_strlit("0");
        reveal_strlit("1");
        reveal_strlit("2");
        reveal_strlit("3");
        reveal_strlit("4");
        reveal_strlit("5");
        reveal_strlit("6");
        reveal_strlit("7");
        reveal_strlit("8");
        reveal_strlit("9");
        reveal_strlit("a");
        reveal_strlit("b");
        reveal_strlit("c");
        reveal_strlit("d");
        reveal_strlit("e");
        reveal_strlit("f");
    }
    if d == 0 {
        "0"
    } else if d == 1 {
        "1"
    } else if d == 2 {
        "2"
    } else if d == 3 {
        "3"
    } else if d == 4 {
        "4"
    } else if d == 5 {
        "5"
    } else if d == 6 {
        "6"
    } else if d == 7 {
        "7"
    } else if d == 8 {
        "8"
    } else if d == 9 {
        "9"
    } else if d == 10 {
        "a"
    } else if d == 11 {
        "b"
    } else if d == 12 {
        "c"
    } else if d == 13 {
        "d"
    } else if d == 14 {
        "e"
    } else {
        "f"
    }
}

/// Appends `n` in decimal.
pub fn push_decimal(out: &mut String, n: u64)
    ensures
        final(out)@ == old(out)@ + decimal(n as nat),
    decreases n,
{
    if n >= 10 {
        push_decimal(out, n / 10);
    }
    out.append(digit_text(n % 10));
    proof {
        if n >= 10 {
            assert(decimal(n as nat) == decimal((n / 10) as nat).push(digit_char((n % 10) as int)));
        }
    }
}

/// Appends `n` in lowercase hexadecimal.
pub fn push_hex(out: &mut String, n: u64)
    ensures
        final(out)@ == old(out)@ + hexadecimal(n as nat),
    decreases n,
{
    if n >= 16 {
        push_hex(out, n / 16);
    }
    out.append(digit_text(n % 16));
}

/// Appends `n` in decimal, with a minus sign where it is negative.
pub fn push_signed(out: &mut String, n: i64)
    ensures
        n >= 0 ==> final(out)@ == old(out)@ + decimal(n as nat),
        n < 0 ==> final(out)@ == old(out)@ + seq!['-'] + decimal((-(n as int)) as nat),
{
    if n >= 0 {
        push_decimal(out, n as u64);
    } else {
        proof {
            reveal_strlit("-");
        }
        out.append("-");
        let magnitude: u64 = if n == i64::MIN { 0x8000_0000_0000_0000u64 } else { (-n) as u64 };
        push_decimal(out, magnitude);
    }
}

/// `n` in decimal, as a string of its own.
pub fn decimal_text(n: u64) -> (r: String)
    ensures
        r@ == decimal(n as nat),
{
    let mut out = String::new();
    push_decimal(&mut out, n);
    assert(out@ =~= decimal(n as nat));
    out
}

/// Appends a byte as two lowercase hexadecimal digits.
pub fn push_byte(out: &mut String, byte: u8)
    ensures
        final(out)@ == old(out)@ + seq![digit_char((byte / 16) as int), digit_char((byte % 16) as int)],
{
    out.append(digit_text((byte / 16) as u64));
    out.append(digit_text((byte % 16) as u64));
    assert(out@ =~= old(out)@ + seq![digit_char((byte / 16) as int), digit_char((byte % 16) as int)]);
}

/// Appends `s`.
pub fn push(out: &mut String, s: &str)
    ensures
        final(out)@ == old(out)@ + s@,
{
    out.append(s);
}

/// What std's `Debug` for `str` prints for a string of these characters: it quoted, with
/// what it escapes escaped.
pub uninterp spec fn quoted(s: Seq<char>) -> Seq<char>;

/// Calls std's `Debug` for `str` on `s`; what it prints is [`quoted`] of its characters.
#[verifier::external_body]
pub fn quote(s: &str) -> (r: String)
    ensures
        r@ == quoted(s@),
{
    format!("{s:?}")
}

/// Whether std counts `c` as alphanumeric.
pub uninterp spec fn alphanumeric(c: char) -> bool;

/// Calls std's `char::is_alphanumeric`; what it answers is [`alphanumeric`] of `c`.
#[verifier::external_body]
pub fn is_alphanumeric(c: char) -> (r: bool)
    ensures
        r == alphanumeric(c),
{
    c.is_alphanumeric()
}

/// Whether std counts `c` as alphabetic.
pub uninterp spec fn alphabetic(c: char) -> bool;

/// Calls std's `char::is_alphabetic`; what it answers is [`alphabetic`] of `c`.
#[verifier::external_body]
pub fn is_alphabetic(c: char) -> (r: bool)
    ensures
        r == alphabetic(c),
{
    c.is_alphabetic()
}

/// Whether std counts `c` as white space.
pub uninterp spec fn white_space(c: char) -> bool;

/// Calls std's `char::is_whitespace`; what it answers is [`white_space`] of `c`.
#[verifier::external_body]
pub fn is_whitespace(c: char) -> (r: bool)
    ensures
        r == white_space(c),
{
    c.is_whitespace()
}

/// `c` is one of the ten ASCII digits.
pub fn is_ascii_digit(c: char) -> (r: bool)
    ensures
        r == ('0' <= c && c <= '9'),
{
    '0' <= c && c <= '9'
}

/// `s` ends with `suffix`.
pub open spec fn ends_with(s: Seq<char>, suffix: Seq<char>) -> bool {
    suffix.len() <= s.len() && s.subrange(s.len() - suffix.len(), s.len() as int) == suffix
}

/// Whether `s` ends with `suffix`.
pub fn text_ends_with(s: &str, suffix: &str) -> (r: bool)
    ensures
        r == ends_with(s@, suffix@),
{
    let n = s.unicode_len();
    let m = suffix.unicode_len();
    if m > n {
        return false;
    }
    let mut i: usize = 0;
    while i < m
        invariant
            i <= m,
            m <= n,
            n == s@.len(),
            m == suffix@.len(),
            forall|k: int| 0 <= k < i ==> s@[n - m + k] == suffix@[k],
        decreases m - i,
    {
        if s.get_char(n - m + i) != suffix.get_char(i) {
            assert(s@.subrange(n - m, n as int)[i as int] != suffix@[i as int]);
            return false;
        }
        i = i + 1;
    }
    assert(s@.subrange(n - m, n as int) =~= suffix@);
    true
}

/// `s` with every trailing `suffix` taken off it.
pub open spec fn trimmed(s: Seq<char>, suffix: Seq<char>) -> Seq<char>
    decreases s.len(),
{
    if suffix.len() > 0 && ends_with(s, suffix) {
        trimmed(s.subrange(0, s.len() - suffix.len()), suffix)
    } else {
        s
    }
}

pub fn trim_end_matches(s: &str, suffix: &str) -> (r: String)
    requires
        suffix@.len() > 0,
    ensures
        r@ == trimmed(s@, suffix@),
        !ends_with(r@, suffix@),
        r@ == s@.subrange(0, r@.len() as int),
{
    let mut end = s.unicode_len();
    let m = suffix.unicode_len();
    proof {
        assert(s@.subrange(0, end as int) =~= s@);
    }
    loop
        invariant
            end <= s@.len(),
            m == suffix@.len(),
            m > 0,
            trimmed(s@.subrange(0, end as int), suffix@) == trimmed(s@, suffix@),
        decreases end,
    {
        let head = s.substring_char(0, end);
        if !text_ends_with(head, suffix) {
            return head.to_owned();
        }
        proof {
            assert(head@.subrange(0, head@.len() - m) =~= s@.subrange(0, end - m));
        }
        end = end - m;
    }
}

} // verus!
