//! Decimal numbers in text: reading unsigned integers as `u32::from_str` and
//! `u64::from_str` do, writing them as `Display` does, and recognising the
//! literals that `f64::from_str` accepts.
use vstd::prelude::*;
use crate::text::{Sep, split, chars_of, split_chars, views, push_char, join, free_of, lemma_split_join};

verus! {

/// An ASCII decimal digit.
pub open spec fn is_digit(c: char) -> bool {
    0x30 <= (c as u32) <= 0x39
}

/// The value of an ASCII decimal digit.
pub open spec fn digit_value(c: char) -> nat {
    ((c as u32) - 0x30) as nat
}

/// The character of a digit value below ten.
pub open spec fn digit_char(d: nat) -> char {
    (d + 0x30) as char
}

/// Why a text is not an unsigned integer (the kinds of `ParseIntError`).
#[derive(Clone, Copy, Debug, PartialEq, Eq)]
pub enum IntErrorKind {
    Empty,
    InvalidDigit,
    PosOverflow,
}

/// Why a text is not a float literal (the kinds of `ParseFloatError`).
#[derive(Clone, Copy, Debug, PartialEq, Eq)]
pub enum FloatErrorKind {
    Empty,
    Invalid,
}

/// The value of a run of digits read left to right, no larger than `max`: the
/// first position that holds a non-digit, or at which the value read so far
/// passes `max`, decides the error (a non-digit first).
pub open spec fn digits_value(d: Seq<char>, max: nat) -> Result<nat, IntErrorKind>
    decreases d.len(),
{
    if d.len() == 0 {
        Ok(0)
    } else {
        match digits_value(d.drop_last(), max) {
            Err(e) => Err(e),
            Ok(v) => if !is_digit(d.last()) {
                Err(IntErrorKind::InvalidDigit)
            } else if v * 10 + digit_value(d.last()) > max {
                Err(IntErrorKind::PosOverflow)
            } else {
                Ok(v * 10 + digit_value(d.last()))
            },
        }
    }
}

/// What `from_str` of an unsigned integer type whose largest value is `max`
/// gives for `s`: an optional `+` and then digits.
pub open spec fn parse_unsigned(s: Seq<char>, max: nat) -> Result<nat, IntErrorKind> {
    if s.len() == 0 {
        Err(IntErrorKind::Empty)
    } else if s.len() == 1 && (s[0] == '+' || s[0] == '-') {
        Err(IntErrorKind::InvalidDigit)
    } else if s[0] == '+' {
        digits_value(s.drop_first(), max)
    } else {
        digits_value(s, max)
    }
}

/// A machine result seen as a mathematical one.
pub open spec fn as_nat(r: Result<u64, IntErrorKind>) -> Result<nat, IntErrorKind> {
    match r {
        Ok(n) => Ok(n as nat),
        Err(e) => Err(e),
    }
}

/// The decimal digits of `n`, as `Display` writes an unsigned integer.
pub open spec fn decimal(n: nat) -> Seq<char>
    decreases n,
{
    if n < 10 {
        seq![digit_char(n)]
    } else {
        decimal(n / 10).push(digit_char(n % 10))
    }
}

/// Once a prefix of the digits fails, the whole run fails the same way.
pub proof fn lemma_digits_error_prefix(d: Seq<char>, i: int, max: nat)
    requires
        0 <= i <= d.len(),
        digits_value(d.take(i), max) is Err,
    ensures
        digits_value(d, max) == digits_value(d.take(i), max),
    decreases d.len() - i,
{
    if i < d.len() {
        assert(d.take(i + 1).drop_last() =~= d.take(i));
        lemma_digits_error_prefix(d, i + 1, max);
    } else {
        assert(d.take(i) =~= d);
    }
}

/// Reads the digits `v[start..]`.
fn digits_from(v: &Vec<char>, start: usize, max: u64) -> (r: Result<u64, IntErrorKind>)
    requires
        start <= v.len(),
    ensures
        as_nat(r) == digits_value(v@.skip(start as int), max as nat),
        r matches Ok(n) ==> n <= max,
{
    let n = v.len();
    let ghost d = v@.skip(start as int);
    let mut acc: u64 = 0;
    let mut i: usize = start;
    assert(d.take(0) =~= Seq::<char>::empty());
    while i < n
        invariant
            start <= i <= n == v.len(),
            d == v@.skip(start as int),
            acc <= max,
            digits_value(d.take(i - start), max as nat) == Ok::<nat, IntErrorKind>(acc as nat),
        decreases n - i,
    {
        let c = v[i];
        let ghost k = i - start;
        assert(d.take(k + 1).drop_last() =~= d.take(k));
        assert(d.take(k + 1).last() == c);
        let code = c as u32;
        if code < 0x30 || code > 0x39 {
            proof {
                lemma_digits_error_prefix(d, k + 1, max as nat);
            }
            return Err(IntErrorKind::InvalidDigit);
        }
        let next: u128 = (acc as u128) * 10 + ((code - 0x30) as u128);
        if next > max as u128 {
            proof {
                lemma_digits_error_prefix(d, k + 1, max as nat);
            }
            return Err(IntErrorKind::PosOverflow);
        }
        acc = next as u64;
        i = i + 1;
    }
    assert(d.take(n - start) =~= d);
    Ok(acc)
}

/// `from_str` of an unsigned integer type whose largest value is `max`.
pub fn parse_unsigned_chars(v: &Vec<char>, max: u64) -> (r: Result<u64, IntErrorKind>)
    ensures
        as_nat(r) == parse_unsigned(v@, max as nat),
        r matches Ok(n) ==> n <= max,
{
    let n = v.len();
    if n == 0 {
        return Err(IntErrorKind::Empty);
    }
    if n == 1 && (v[0] == '+' || v[0] == '-') {
        return Err(IntErrorKind::InvalidDigit);
    }
    if v[0] == '+' {
        assert(v@.skip(1) =~= v@.drop_first());
        digits_from(v, 1, max)
    } else {
        assert(v@.skip(0) =~= v@);
        digits_from(v, 0, max)
    }
}

/// `u32::from_str`.
pub fn parse_u32(s: &str) -> (r: Result<u32, IntErrorKind>)
    ensures
        match r {
            Ok(n) => parse_unsigned(s@, u32::MAX as nat) == Ok::<nat, IntErrorKind>(n as nat),
            Err(e) => parse_unsigned(s@, u32::MAX as nat) == Err::<nat, IntErrorKind>(e),
        },
{
    let v = chars_of(s);
    match parse_unsigned_chars(&v, u32::MAX as u64) {
        Ok(n) => Ok(n as u32),
        Err(e) => Err(e),
    }
}

/// `u64::from_str`.
pub fn parse_u64(s: &str) -> (r: Result<u64, IntErrorKind>)
    ensures
        as_nat(r) == parse_unsigned(s@, u64::MAX as nat),
{
    let v = chars_of(s);
    parse_unsigned_chars(&v, u64::MAX)
}

/// Appends the decimal digits of `n`.
pub fn push_decimal(s: &mut String, n: u64)
    ensures
        final(s)@ == old(s)@ + decimal(n as nat),
    decreases n,
{
    if n >= 10 {
        push_decimal(s, n / 10);
    }
    let d = (n % 10) as u32;
    let c = char_of_digit(d);
    push_char(s, c);
    proof {
        if n >= 10 {
            assert(decimal(n as nat) == decimal((n / 10) as nat).push(digit_char((n % 10) as nat)));
        }
    }
    assert(final(s)@ =~= old(s)@ + decimal(n as nat));
}

/// The character of a digit value.
fn char_of_digit(d: u32) -> (c: char)
    requires
        d < 10,
    ensures
        c == digit_char(d as nat),
        is_digit(c),
        digit_value(c) == d,
{
    let b: u8 = 0x30 + d as u8;
    let c = b as char;
    assert(c as u32 == b as u32);
    c
}

/// The decimal digits of a value read back give the value.
pub proof fn lemma_decimal_roundtrip(n: nat, max: nat)
    requires
        n <= max,
    ensures
        digits_value(decimal(n), max) == Ok::<nat, IntErrorKind>(n),
        decimal(n).len() > 0,
        forall|i: int| 0 <= i < decimal(n).len() ==> is_digit(#[trigger] decimal(n)[i]),
    decreases n,
{
    let c = digit_char(n % 10);
    assert(c as u32 == n % 10 + 0x30);
    assert(is_digit(c) && digit_value(c) == n % 10);
    assert(decimal(n).last() == c);
    if n < 10 {
        assert(decimal(n).drop_last() =~= Seq::<char>::empty());
        assert(digits_value(Seq::<char>::empty(), max) == Ok::<nat, IntErrorKind>(0));
    } else {
        lemma_decimal_roundtrip(n / 10, max);
        assert(decimal(n).drop_last() =~= decimal(n / 10));
        assert((n / 10) * 10 + n % 10 == n);
    }
}

/// The ASCII lower case of a character; other characters stay as they are.
pub open spec fn ascii_lower(c: char) -> char {
    if 0x41 <= (c as u32) <= 0x5A {
        ((c as u32) + 32) as char
    } else {
        c
    }
}

/// `s` with its ASCII letters in lower case.
pub open spec fn lower(s: Seq<char>) -> Seq<char> {
    s.map_values(|c: char| ascii_lower(c))
}

/// How many characters of `s` satisfy `p`.
pub open spec fn count_where(s: Seq<char>, p: spec_fn(char) -> bool) -> nat
    decreases s.len(),
{
    if s.len() == 0 {
        0
    } else {
        count_where(s.drop_last(), p) + if p(s.last()) {
            1nat
        } else {
            0nat
        }
    }
}

/// The part of a float literal before its exponent: digits with at most one
/// `.`, and at least one digit (`Digit+ | Digit+ '.' Digit* | Digit* '.' Digit+`).
pub open spec fn is_mantissa(m: Seq<char>) -> bool {
    &&& forall|i: int| 0 <= i < m.len() ==> is_digit(#[trigger] m[i]) || m[i] == '.'
    &&& count_where(m, |c: char| c == '.') <= 1
    &&& count_where(m, |c: char| is_digit(c)) >= 1
}

/// `s` without one leading `+` or `-`.
pub open spec fn unsigned_part(s: Seq<char>) -> Seq<char> {
    if s.len() > 0 && (s[0] == '+' || s[0] == '-') {
        s.drop_first()
    } else {
        s
    }
}

/// The part of a float literal after its `e`: an optional sign and digits.
pub open spec fn is_exponent(x: Seq<char>) -> bool {
    let d = unsigned_part(x);
    &&& d.len() > 0
    &&& forall|i: int| 0 <= i < d.len() ==> is_digit(#[trigger] d[i])
}

/// A number with an optional exponent: `Mantissa (('e' | 'E') Sign? Digit+)?`.
pub open spec fn is_decimal_number(b: Seq<char>) -> bool {
    let parts = split(lower(b), Sep::Char('e'));
    ||| parts.len() == 1 && is_mantissa(parts[0])
    ||| parts.len() == 2 && is_mantissa(parts[0]) && is_exponent(parts[1])
}

/// The texts `f64::from_str` accepts: an optional sign, then `inf`,
/// `infinity`, `nan` (in any case) or a decimal number.
pub open spec fn is_float_literal(s: Seq<char>) -> bool {
    let body = unsigned_part(s);
    let low = lower(body);
    ||| low == seq!['i', 'n', 'f']
    ||| low == seq!['i', 'n', 'f', 'i', 'n', 'i', 't', 'y']
    ||| low == seq!['n', 'a', 'n']
    ||| is_decimal_number(body)
}

/// Whether `f64::from_str` accepts `s`, and if not, why.
pub open spec fn float_check(s: Seq<char>) -> Result<(), FloatErrorKind> {
    if s.len() == 0 {
        Err(FloatErrorKind::Empty)
    } else if is_float_literal(s) {
        Ok(())
    } else {
        Err(FloatErrorKind::Invalid)
    }
}

fn ascii_lower_char(c: char) -> (r: char)
    ensures
        r == ascii_lower(c),
{
    let v = c as u32;
    if 0x41 <= v && v <= 0x5A {
        let b: u8 = (v + 32) as u8;
        let r = b as char;
        assert(r as u32 == v + 32);
        r
    } else {
        c
    }
}

/// `v[start..]` in lower case.
fn lower_from(v: &Vec<char>, start: usize) -> (r: Vec<char>)
    requires
        start <= v.len(),
    ensures
        r@ == lower(v@.skip(start as int)),
{
    let mut r: Vec<char> = Vec::new();
    let n = v.len();
    let mut i = start;
    while i < n
        invariant
            start <= i <= n == v.len(),
            r@ == lower(v@.subrange(start as int, i as int)),
        decreases n - i,
    {
        let c = ascii_lower_char(v[i]);
        r.push(c);
        assert(lower(v@.subrange(start as int, i + 1)) =~= lower(v@.subrange(start as int, i as int)).push(c));
        i = i + 1;
    }
    assert(v@.subrange(start as int, n as int) =~= v@.skip(start as int));
    r
}

fn is_mantissa_chars(m: &Vec<char>) -> (b: bool)
    ensures
        b == is_mantissa(m@),
{
    let n = m.len();
    let mut dots: usize = 0;
    let mut digits: usize = 0;
    let ghost dot = |c: char| c == '.';
    let ghost dig = |c: char| is_digit(c);
    assert(m@.take(0) =~= Seq::<char>::empty());
    for i in 0..n
        invariant
            n == m.len(),
            dot == (|c: char| c == '.'),
            dig == (|c: char| is_digit(c)),
            dots == count_where(m@.take(i as int), dot),
            digits == count_where(m@.take(i as int), dig),
            dots <= i && digits <= i,
            forall|k: int| 0 <= k < i ==> is_digit(#[trigger] m@[k]) || m@[k] == '.',
    {
        let c = m[i];
        let code = c as u32;
        assert(m@.take(i + 1).drop_last() =~= m@.take(i as int));
        if c == '.' {
            dots = dots + 1;
        } else if 0x30 <= code && code <= 0x39 {
            digits = digits + 1;
        } else {
            return false;
        }
    }
    assert(m@.take(n as int) =~= m@);
    dots <= 1 && digits >= 1
}

fn is_exponent_chars(x: &Vec<char>) -> (b: bool)
    ensures
        b == is_exponent(x@),
{
    let n = x.len();
    let start: usize = if n > 0 && (x[0] == '+' || x[0] == '-') {
        1
    } else {
        0
    };
    let ghost d = unsigned_part(x@);
    assert(d =~= x@.skip(start as int));
    if start >= n {
        return false;
    }
    let mut i = start;
    while i < n
        invariant
            start <= i <= n == x.len(),
            d == x@.skip(start as int),
            d == unsigned_part(x@),
            forall|k: int| 0 <= k < i - start ==> is_digit(#[trigger] d[k]),
        decreases n - i,
    {
        let code = x[i] as u32;
        if code < 0x30 || code > 0x39 {
            assert(!is_digit(d[i - start]));
            assert(!is_exponent(x@));
            return false;
        }
        i = i + 1;
    }
    true
}

fn is_decimal_number_chars(v: &Vec<char>, start: usize) -> (b: bool)
    requires
        start <= v.len(),
    ensures
        b == is_decimal_number(v@.skip(start as int)),
{
    let low = lower_from(v, start);
    let parts = split_chars(&low, Sep::Char('e'));
    let ghost ps = split(lower(v@.skip(start as int)), Sep::Char('e'));
    assert(views(parts@) == ps);
    if parts.len() == 1 {
        let m = chars_of(parts[0].as_str());
        assert(m@ == ps[0]);
        is_mantissa_chars(&m)
    } else if parts.len() == 2 {
        let m = chars_of(parts[0].as_str());
        let x = chars_of(parts[1].as_str());
        assert(m@ == ps[0]);
        assert(x@ == ps[1]);
        is_mantissa_chars(&m) && is_exponent_chars(&x)
    } else {
        false
    }
}

/// Whether `f64::from_str` accepts `s`, and if not, why.
pub fn check_float(s: &str) -> (r: Result<(), FloatErrorKind>)
    ensures
        r == float_check(s@),
{
    let v = chars_of(s);
    let n = v.len();
    if n == 0 {
        return Err(FloatErrorKind::Empty);
    }
    let start: usize = if v[0] == '+' || v[0] == '-' {
        1
    } else {
        0
    };
    assert(unsigned_part(v@) =~= v@.skip(start as int));
    let low = lower_from(&v, start);
    let m = low.len();
    let is_inf = m == 3 && low[0] == 'i' && low[1] == 'n' && low[2] == 'f';
    let is_infinity = m == 8 && low[0] == 'i' && low[1] == 'n' && low[2] == 'f' && low[3] == 'i'
        && low[4] == 'n' && low[5] == 'i' && low[6] == 't' && low[7] == 'y';
    let is_nan = m == 3 && low[0] == 'n' && low[1] == 'a' && low[2] == 'n';
    if is_inf {
        assert(low@ =~= seq!['i', 'n', 'f']);
    }
    if is_infinity {
        assert(low@ =~= seq!['i', 'n', 'f', 'i', 'n', 'i', 't', 'y']);
    }
    if is_nan {
        assert(low@ =~= seq!['n', 'a', 'n']);
    }
    if is_inf || is_infinity || is_nan || is_decimal_number_chars(&v, start) {
        Ok(())
    } else {
        Err(FloatErrorKind::Invalid)
    }
}

proof fn lemma_count_none(s: Seq<char>, p: spec_fn(char) -> bool)
    requires
        forall|i: int| 0 <= i < s.len() ==> !p(#[trigger] s[i]),
    ensures
        count_where(s, p) == 0,
    decreases s.len(),
{
    if s.len() > 0 {
        assert(!p(s[s.len() - 1]));
        lemma_count_none(s.drop_last(), p);
    }
}

proof fn lemma_count_some(s: Seq<char>, p: spec_fn(char) -> bool, i: int)
    requires
        0 <= i < s.len(),
        p(s[i]),
    ensures
        count_where(s, p) >= 1,
    decreases s.len(),
{
    if i < s.len() - 1 {
        assert(s.drop_last()[i] == s[i]);
        lemma_count_some(s.drop_last(), p, i);
    }
}

proof fn lemma_count_at_most_one(s: Seq<char>, p: spec_fn(char) -> bool)
    requires
        forall|i: int, j: int| 0 <= i < s.len() && 0 <= j < s.len() && p(#[trigger] s[i]) && p(#[trigger] s[j]) ==> i == j,
    ensures
        count_where(s, p) <= 1,
    decreases s.len(),
{
    if s.len() > 0 {
        let init = s.drop_last();
        if p(s.last()) {
            assert forall|i: int| 0 <= i < init.len() implies !p(#[trigger] init[i]) by {
                assert(init[i] == s[i]);
                if p(init[i]) {
                    assert(p(s[i]) && p(s[s.len() - 1]));
                }
            }
            lemma_count_none(init, p);
        } else {
            assert forall|i: int, j: int|
                0 <= i < init.len() && 0 <= j < init.len() && p(#[trigger] init[i]) && p(#[trigger] init[j]) implies i == j by {
                assert(init[i] == s[i] && init[j] == s[j]);
            }
            lemma_count_at_most_one(init, p);
        }
    }
}

/// Digits and at most one `.`, with at least one digit: the plain decimal
/// notation of a number such as `101.25`, `7`, `.5` or `3.`.
pub open spec fn plain_decimal(s: Seq<char>) -> bool {
    &&& exists|i: int| 0 <= i < s.len() && is_digit(#[trigger] s[i])
    &&& forall|i: int| 0 <= i < s.len() ==> is_digit(#[trigger] s[i]) || s[i] == '.'
    &&& forall|i: int, j: int|
        0 <= i < s.len() && 0 <= j < s.len() && #[trigger] s[i] == '.' && #[trigger] s[j] == '.' ==> i == j
}

/// Plain decimal notation is its own lower case, holds no `e`, and is a
/// mantissa.
proof fn lemma_plain_decimal(s: Seq<char>)
    requires
        plain_decimal(s),
    ensures
        lower(s) == s,
        free_of(s, Sep::Char('e')),
        is_mantissa(s),
        s.len() > 0,
        unsigned_part(s) == s,
{
    assert forall|i: int| 0 <= i < s.len() implies #[trigger] lower(s)[i] == s[i] by {
        assert(is_digit(s[i]) || s[i] == '.');
    }
    assert(lower(s) =~= s);
    assert forall|i: int| 0 <= i < s.len() implies !Sep::Char('e').accepts(#[trigger] s[i]) by {
        assert(is_digit(s[i]) || s[i] == '.');
    }
    let k = choose|i: int| 0 <= i < s.len() && is_digit(#[trigger] s[i]);
    lemma_count_some(s, |c: char| is_digit(c), k);
    assert forall|i: int, j: int|
        0 <= i < s.len() && 0 <= j < s.len() && (|c: char| c == '.')(#[trigger] s[i]) && (|c: char| c == '.')(#[trigger] s[j]) implies i == j by {
        assert(s[i] == '.' && s[j] == '.');
    }
    lemma_count_at_most_one(s, |c: char| c == '.');
    assert(is_digit(s[0]) || s[0] == '.');
}

/// `f64::from_str` accepts every number in plain decimal notation, however
/// many digits it has, with or without a sign.
pub proof fn law_decimal_literals_accepted(s: Seq<char>)
    requires
        plain_decimal(s),
    ensures
        float_check(s) == Ok::<(), FloatErrorKind>(()),
        float_check(seq!['-'] + s) == Ok::<(), FloatErrorKind>(()),
        float_check(seq!['+'] + s) == Ok::<(), FloatErrorKind>(()),
{
    lemma_plain_decimal(s);
    lemma_split_join(seq![s], 'e', Sep::Char('e'));
    assert(join(seq![s], 'e') == s);
    assert(is_decimal_number(s));
    assert(unsigned_part(seq!['-'] + s) =~= s);
    assert(unsigned_part(seq!['+'] + s) =~= s);
}

/// `f64::from_str` accepts every number in plain decimal notation followed by
/// an exponent: `e` or `E`, an optional sign, and digits.
pub proof fn law_exponent_literals_accepted(s: Seq<char>, d: Seq<char>)
    requires
        plain_decimal(s),
        d.len() > 0,
        forall|i: int| 0 <= i < d.len() ==> is_digit(#[trigger] d[i]),
    ensures
        float_check(s + seq!['e'] + d) == Ok::<(), FloatErrorKind>(()),
        float_check(s + seq!['E'] + d) == Ok::<(), FloatErrorKind>(()),
        float_check(s + seq!['e', '-'] + d) == Ok::<(), FloatErrorKind>(()),
        float_check(s + seq!['E', '+'] + d) == Ok::<(), FloatErrorKind>(()),
{
    lemma_plain_decimal(s);
    assert forall|i: int| 0 <= i < d.len() implies #[trigger] lower(d)[i] == d[i] by {
        assert(is_digit(d[i]));
    }
    assert(lower(d) =~= d);
    assert(free_of(d, Sep::Char('e'))) by {
        assert forall|i: int| 0 <= i < d.len() implies !Sep::Char('e').accepts(#[trigger] d[i]) by {
            assert(is_digit(d[i]));
        }
    }
    assert(unsigned_part(d) == d) by {
        assert(is_digit(d[0]));
    }
    assert(is_exponent(d));
    let m = seq!['-'] + d;
    let pl = seq!['+'] + d;
    assert(unsigned_part(m) =~= d);
    assert(unsigned_part(pl) =~= d);
    assert(is_exponent(m));
    assert(is_exponent(pl));
    assert(lower(m) =~= m) by {
        assert forall|i: int| 0 <= i < m.len() implies #[trigger] lower(m)[i] == m[i] by {
            if i > 0 {
                assert(m[i] == d[i - 1]);
                assert(is_digit(d[i - 1]));
            }
        }
    }
    assert(lower(pl) =~= pl) by {
        assert forall|i: int| 0 <= i < pl.len() implies #[trigger] lower(pl)[i] == pl[i] by {
            if i > 0 {
                assert(pl[i] == d[i - 1]);
                assert(is_digit(d[i - 1]));
            }
        }
    }
    assert(free_of(m, Sep::Char('e'))) by {
        assert forall|i: int| 0 <= i < m.len() implies !Sep::Char('e').accepts(#[trigger] m[i]) by {
            if i > 0 {
                assert(m[i] == d[i - 1]);
            }
        }
    }
    assert(free_of(pl, Sep::Char('e'))) by {
        assert forall|i: int| 0 <= i < pl.len() implies !Sep::Char('e').accepts(#[trigger] pl[i]) by {
            if i > 0 {
                assert(pl[i] == d[i - 1]);
            }
        }
    }
    lemma_exponent_form(s, d, 'e');
    lemma_exponent_form(s, d, 'E');
    lemma_exponent_form(s, m, 'e');
    lemma_exponent_form(s, pl, 'E');
    assert(s + seq!['e', '-'] + d =~= s + seq!['e'] + m);
    assert(s + seq!['E', '+'] + d =~= s + seq!['E'] + pl);
}

proof fn lemma_exponent_form(s: Seq<char>, x: Seq<char>, e: char)
    requires
        plain_decimal(s),
        e == 'e' || e == 'E',
        lower(x) == x,
        free_of(x, Sep::Char('e')),
        is_exponent(x),
    ensures
        float_check(s + seq![e] + x) == Ok::<(), FloatErrorKind>(()),
{
    lemma_plain_decimal(s);
    let b = s + seq![e] + x;
    assert(lower(b) =~= s + seq!['e'] + x) by {
        assert forall|i: int| 0 <= i < b.len() implies #[trigger] lower(b)[i] == (s + seq!['e'] + x)[i] by {
            if i < s.len() {
                assert(b[i] == s[i]);
                assert(lower(s)[i] == s[i]);
            } else if i == s.len() {
            } else {
                assert(b[i] == x[i - s.len() - 1]);
                assert(lower(x)[i - s.len() - 1] == x[i - s.len() - 1]);
            }
        }
    }
    let ps = seq![s, x];
    assert(ps.drop_last() =~= seq![s]);
    assert(join(seq![s], 'e') == s);
    assert(join(ps, 'e') == s.push('e') + x);
    assert(s.push('e') + x =~= s + seq!['e'] + x);
    assert forall|i: int| 0 <= i < ps.len() implies free_of(#[trigger] ps[i], Sep::Char('e')) by {}
    lemma_split_join(ps, 'e', Sep::Char('e'));
    assert(unsigned_part(b) == b) by {
        assert(b[0] == s[0]);
    }
    assert(is_decimal_number(b));
}

} // verus!
