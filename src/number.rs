//! Decimal numerals: reading a field of a table row as a fixed-point quantity,
//! and writing a quantity back as a numeral.
use vstd::prelude::*;
use crate::math::{SCALE, MAX_MAGNITUDE, in_bounds};
use crate::text::{fields, split_fields, lemma_fields_nonempty, copy_range, trim, trim_chars, string_of,
    free_of, lemma_fields_free, lemma_fields_after_sep, lemma_trim_unblanked};
use vstd::arithmetic::div_mod::{lemma_fundamental_div_mod, lemma_div_is_ordered, lemma_mod_breakdown, lemma_small_mod,
    lemma_fundamental_div_mod_converse};

verus! {

/// Number of fraction digits that a quantity holds.
pub const FRACTION_DIGITS: usize = 9;

pub open spec fn is_digit(c: char) -> bool {
    '0' <= c <= '9'
}

pub open spec fn digit_value(c: char) -> int {
    c as int - '0' as int
}

pub open spec fn all_digits(s: Seq<char>) -> bool {
    forall|i: int| 0 <= i < s.len() ==> is_digit(#[trigger] s[i])
}

/// The number that a string of decimal digits writes, most significant first.
pub open spec fn digits_value(s: Seq<char>) -> int
    decreases s.len(),
{
    if s.len() == 0 {
        0
    } else {
        digits_value(s.drop_last()) * 10 + digit_value(s.last())
    }
}

pub open spec fn pow10(n: nat) -> int
    decreases n,
{
    if n == 0 {
        1
    } else {
        10 * pow10((n - 1) as nat)
    }
}

/// `E` read as `e`, the exponent marker.
pub open spec fn fold_exponent(c: char) -> char {
    if c == 'E' { 'e' } else { c }
}

pub open spec fn fold_exponents(s: Seq<char>) -> Seq<char> {
    s.map_values(|c: char| fold_exponent(c))
}

/// Value of an exponent: an optional sign, then at least one digit.
pub open spec fn exponent_value(s: Seq<char>) -> Option<int> {
    let signed = s.len() > 0 && (s[0] == '-' || s[0] == '+');
    let digits = if signed { s.drop_first() } else { s };
    if digits.len() > 0 && all_digits(digits) {
        Some(if signed && s[0] == '-' { -digits_value(digits) } else { digits_value(digits) })
    } else {
        None
    }
}

/// The units in `n * 10^k` units where that is a whole number of units.
pub open spec fn scaled_units(n: int, k: int) -> Option<int> {
    if k >= 0 {
        Some(n * pow10(k as nat))
    } else if n % pow10((-k) as nat) == 0 {
        Some(n / pow10((-k) as nat))
    } else {
        None
    }
}

/// Value in units of an unsigned numeral: digits, optionally a point and more
/// digits, with at least one digit, then optionally `e` or `E` and an
/// exponent. The numeral is read exactly: it has a value only where that is a
/// whole number of units no larger than `MAX_MAGNITUDE`.
pub open spec fn unsigned_value(body: Seq<char>) -> Option<int> {
    let pe = fields(fold_exponents(body), 'e');
    let exp = if pe.len() == 2 { exponent_value(pe[1]) } else { Some(0int) };
    let parts = fields(pe[0], '.');
    let ip = parts[0];
    let fp = if parts.len() == 2 { parts[1] } else { Seq::<char>::empty() };
    if pe.len() <= 2 && exp is Some && parts.len() <= 2 && all_digits(ip) && all_digits(fp)
        && ip.len() + fp.len() > 0 {
        match scaled_units(digits_value(ip + fp), FRACTION_DIGITS + exp->0 - fp.len()) {
            Some(u) => if u <= MAX_MAGNITUDE { Some(u) } else { None },
            None => None,
        }
    } else {
        None
    }
}

/// Value in units of a numeral with an optional leading sign.
pub open spec fn decimal_value(s: Seq<char>) -> Option<int> {
    if s.len() > 0 && s[0] == '-' {
        match unsigned_value(s.drop_first()) {
            Some(m) => Some(-m),
            None => None,
        }
    } else if s.len() > 0 && s[0] == '+' {
        unsigned_value(s.drop_first())
    } else {
        unsigned_value(s)
    }
}

/// Value of a field of a table row: the numeral between its blanks.
pub open spec fn field_value(s: Seq<char>) -> Option<int> {
    decimal_value(trim(s))
}

pub proof fn lemma_digits_value_bounds(s: Seq<char>)
    requires
        all_digits(s),
    ensures
        0 <= digits_value(s) < pow10(s.len()),
    decreases s.len(),
{
    if s.len() > 0 {
        assert(all_digits(s.drop_last()));
        lemma_digits_value_bounds(s.drop_last());
        assert(is_digit(s[s.len() - 1]));
    }
}

pub proof fn lemma_pow10_nine()
    ensures
        pow10(9) == SCALE,
{
    reveal_with_fuel(pow10, 10);
}

pub proof fn lemma_pow10_add(a: nat, b: nat)
    ensures
        pow10(a) * pow10(b) == pow10(a + b),
        pow10(a) >= 1,
    decreases a,
{
    if a > 0 {
        lemma_pow10_add((a - 1) as nat, b);
        assert(pow10(a) * pow10(b) == 10 * (pow10((a - 1) as nat) * pow10(b))) by (nonlinear_arith)
            requires pow10(a) == 10 * pow10((a - 1) as nat);
    }
}

fn is_digit_char(c: char) -> (r: bool)
    ensures
        r == is_digit(c),
{
    '0' <= c && c <= '9'
}

/// The smaller of `a` and `b`.
pub open spec fn min_of(a: int, b: int) -> int {
    if a < b { a } else { b }
}

/// Whether `s` is all digits, and then its value, capped at `cap`.
fn capped_digits(s: &[char], cap: u128) -> (r: (bool, u128))
    requires
        cap <= 1_000_000_000_000_000_000_000_000_000_000_000_000u128,
    ensures
        r.0 == all_digits(s@),
        r.0 ==> r.1 == min_of(digits_value(s@), cap as int),
{
    let mut v: u128 = 0;
    let mut i: usize = 0;
    while i < s.len()
        invariant
            cap <= 1_000_000_000_000_000_000_000_000_000_000_000_000u128,
            i <= s@.len(),
            all_digits(s@.take(i as int)),
            v == min_of(digits_value(s@.take(i as int)), cap as int),
        decreases s@.len() - i,
    {
        let c = s[i];
        if !is_digit_char(c) {
            assert(!all_digits(s@)) by {
                assert(!is_digit(s@[i as int]));
            }
            return (false, 0);
        }
        assert(s@.take(i + 1).drop_last() =~= s@.take(i as int));
        let d: u128 = (c as u32 - '0' as u32) as u128;
        proof {
            lemma_digits_value_bounds(s@.take(i as int));
        }
        let w: u128 = v * 10 + d;
        v = if w < cap { w } else { cap };
        i = i + 1;
        assert(all_digits(s@.take(i as int)));
    }
    assert(s@.take(i as int) =~= s@);
    (true, v)
}

/// Exponents beyond this are held at it: the outcome is the same.
pub const EXPONENT_CAP: u128 = 1_000_000_000_000_000_000_000_000_000_000;

/// The value of an exponent, held within `EXPONENT_CAP` either way.
fn parse_exponent(s: &[char]) -> (r: Option<i128>)
    ensures
        r is None <==> exponent_value(s@) is None,
        r matches Some(e) ==> e == (if exponent_value(s@)->0 > EXPONENT_CAP { EXPONENT_CAP as int }
            else if exponent_value(s@)->0 < -EXPONENT_CAP { -EXPONENT_CAP } else { exponent_value(s@)->0 }),
{
    let n = s.len();
    let signed = n > 0 && (s[0] == '-' || s[0] == '+');
    let digits = if signed { copy_range(s, 1, n) } else { copy_range(s, 0, n) };
    assert(digits@ =~= (if signed { s@.drop_first() } else { s@ }));
    if digits.len() == 0 {
        return None;
    }
    let (ok, v) = capped_digits(digits.as_slice(), EXPONENT_CAP + 1);
    if !ok {
        return None;
    }
    proof {
        lemma_digits_value_bounds(digits@);
    }
    let m: i128 = if v > EXPONENT_CAP { EXPONENT_CAP as i128 } else { v as i128 };
    if signed && s[0] == '-' { Some(-m) } else { Some(m) }
}

/// `10^k`.
fn pow10_exec(k: u32) -> (r: u128)
    requires
        k <= 18,
    ensures
        r == pow10(k as nat),
{
    let mut r: u128 = 1;
    let mut i: u32 = 0;
    while i < k
        invariant
            i <= k <= 18,
            r == pow10(i as nat),
        decreases k - i,
    {
        proof {
            lemma_pow10_add(i as nat, (18 - i) as nat);
            lemma_pow10_add((18 - i) as nat, 0);
            lemma_pow10_eighteen();
            assert(pow10(i as nat) <= pow10(18)) by (nonlinear_arith)
                requires pow10(i as nat) * pow10((18 - i) as nat) == pow10(18),
                    pow10((18 - i) as nat) >= 1, pow10(i as nat) >= 1;
        }
        r = r * 10;
        i = i + 1;
    }
    r
}

pub proof fn lemma_pow10_eighteen()
    ensures
        pow10(18) == MAX_MAGNITUDE + 1,
        pow10(19) == 10 * pow10(18),
{
    reveal_with_fuel(pow10, 20);
}

/// The value of a digit string followed by another.
pub proof fn lemma_digits_value_concat(a: Seq<char>, b: Seq<char>)
    ensures
        digits_value(a + b) == digits_value(a) * pow10(b.len()) + digits_value(b),
    decreases b.len(),
{
    if b.len() == 0 {
        assert(a + b =~= a);
    } else {
        lemma_digits_value_concat(a, b.drop_last());
        assert((a + b).drop_last() =~= a + b.drop_last());
        assert((a + b).last() == b.last());
        let p = pow10(b.drop_last().len());
        assert(pow10(b.len()) == 10 * p);
        assert((digits_value(a) * p + digits_value(b.drop_last())) * 10 + digit_value(b.last())
            == digits_value(a) * (10 * p) + (digits_value(b.drop_last()) * 10 + digit_value(b.last())))
            by (nonlinear_arith);
    }
}

pub proof fn lemma_pow10_monotone(a: nat, b: nat)
    requires
        a <= b,
    ensures
        pow10(a) <= pow10(b),
{
    lemma_pow10_add(a, (b - a) as nat);
    lemma_pow10_add((b - a) as nat, 0);
    assert(pow10(a) * pow10((b - a) as nat) >= pow10(a)) by (nonlinear_arith)
        requires pow10((b - a) as nat) >= 1, pow10(a) >= 1;
}

/// The units of the digits `digits` times `10^k` units, where those are a
/// whole number no larger than `MAX_MAGNITUDE`.
fn scale_digits(digits: &[char], k: i128) -> (r: Option<u64>)
    requires
        all_digits(digits@),
        -0x1_0000_0000_0000_0000_0000_0000_0000 < k < 0x1_0000_0000_0000_0000_0000_0000_0000,
    ensures
        r matches Some(u) ==> scaled_units(digits_value(digits@), k as int) == Some(u as int) && u <= MAX_MAGNITUDE,
        r is None ==> !(scaled_units(digits_value(digits@), k as int) matches Some(u) && u <= MAX_MAGNITUDE),
{
    let ghost n = digits_value(digits@);
    proof {
        lemma_digits_value_bounds(digits@);
        lemma_pow10_eighteen();
    }
    let cap: u128 = 10_000_000_000_000_000_000;
    let (_, nc) = capped_digits(digits, cap);
    if nc == 0 {
        proof {
            if k < 0 {
                lemma_pow10_add((-k) as nat, 0);
                lemma_fundamental_div_mod_converse(0, pow10((-k) as nat), 0, 0);
            }
        }
        return Some(0);
    }
    if k >= 0 {
        if k > 18 || nc == cap {
            proof {
                if k > 18 {
                    lemma_pow10_monotone(19, k as nat);
                } else {
                    lemma_pow10_add(k as nat, 0);
                }
                assert(n * pow10(k as nat) > MAX_MAGNITUDE) by (nonlinear_arith)
                    requires n >= 1, pow10(k as nat) >= 1,
                        (k > 18 ==> pow10(k as nat) >= pow10(19)), (k <= 18 ==> n >= 10 * pow10(18)),
                        pow10(19) == 10 * pow10(18), pow10(18) == MAX_MAGNITUDE + 1;
            }
            return None;
        }
        let p = pow10_exec(k as u32);
        proof {
            lemma_pow10_monotone(k as nat, 18);
            assert(nc * p <= cap * pow10(18)) by (nonlinear_arith)
                requires nc <= cap, p == pow10(k as nat), pow10(k as nat) <= pow10(18), p >= 0;
        }
        let prod: u128 = nc * p;
        if prod > MAX_MAGNITUDE as u128 {
            return None;
        }
        return Some(prod as u64);
    }
    let m: i128 = -k;
    let len = digits.len();
    if m > len as i128 {
        proof {
            lemma_pow10_monotone(digits@.len(), m as nat);
            lemma_fundamental_div_mod_converse(n, pow10(m as nat), 0, n);
        }
        return None;
    }
    let cut: usize = len - (m as usize);
    let head = copy_range(digits, 0, cut);
    let tail = copy_range(digits, cut, len);
    assert(digits@ =~= head@ + tail@);
    assert(all_digits(head@) && all_digits(tail@));
    proof {
        lemma_digits_value_concat(head@, tail@);
        lemma_digits_value_bounds(tail@);
        lemma_digits_value_bounds(head@);
        assert(tail@.len() == m);
        lemma_fundamental_div_mod_converse(n, pow10(m as nat), digits_value(head@), digits_value(tail@));
    }
    let (_, tc) = capped_digits(tail.as_slice(), 1);
    if tc != 0 {
        return None;
    }
    let (_, hc) = capped_digits(head.as_slice(), cap);
    if hc > MAX_MAGNITUDE as u128 {
        return None;
    }
    Some(hc as u64)
}

/// `s` with `E` read as `e`.
fn fold_exponent_chars(s: &[char]) -> (r: Vec<char>)
    ensures
        r@ == fold_exponents(s@),
{
    let mut r: Vec<char> = Vec::new();
    let mut i: usize = 0;
    while i < s.len()
        invariant
            i <= s@.len(),
            r@ == fold_exponents(s@).take(i as int),
        decreases s@.len() - i,
    {
        r.push(if s[i] == 'E' { 'e' } else { s[i] });
        i = i + 1;
        assert(r@ =~= fold_exponents(s@).take(i as int));
    }
    assert(fold_exponents(s@).take(i as int) =~= fold_exponents(s@));
    r
}

/// Value in units of an unsigned numeral.
fn parse_unsigned(body: &[char]) -> (r: Option<i64>)
    ensures
        r matches Some(v) ==> unsigned_value(body@) == Some(v as int) && 0 <= v <= MAX_MAGNITUDE,
        r is None ==> unsigned_value(body@) is None,
{
    let folded = fold_exponent_chars(body);
    let pe = split_fields(folded.as_slice(), 'e');
    proof {
        lemma_fields_nonempty(folded@, 'e');
    }
    if pe.len() > 2 {
        return None;
    }
    let e: i128 = if pe.len() == 2 {
        match parse_exponent(pe[1].as_slice()) {
            Some(e) => e,
            None => {
                return None;
            },
        }
    } else {
        0
    };
    let mant = &pe[0];
    let parts = split_fields(mant.as_slice(), '.');
    proof {
        lemma_fields_nonempty(mant@, '.');
    }
    if parts.len() > 2 {
        return None;
    }
    let ip = &parts[0];
    let empty: Vec<char> = Vec::new();
    let fp = if parts.len() == 2 { &parts[1] } else { &empty };
    assert(fp@ == (if fields(mant@, '.').len() == 2 { fields(mant@, '.')[1] } else { Seq::<char>::empty() }));
    let (ip_ok, _) = capped_digits(ip.as_slice(), 0);
    let (fp_ok, _) = capped_digits(fp.as_slice(), 0);
    if !ip_ok || !fp_ok || (ip.len() == 0 && fp.len() == 0) {
        return None;
    }
    let digits = concat_chars(ip.as_slice(), fp.as_slice());
    assert(all_digits(digits@)) by {
        assert forall|j: int| 0 <= j < digits@.len() implies is_digit(#[trigger] digits@[j]) by {
            if j < ip@.len() {
                assert(digits@[j] == ip@[j]);
            } else {
                assert(digits@[j] == fp@[j - ip@.len()]);
            }
        }
    }
    let len = digits.len();
    let k: i128 = FRACTION_DIGITS as i128 + e - fp.len() as i128;
    proof {
        let exact = if pe@.len() == 2 { exponent_value(pe@[1]@)->0 } else { 0int };
        lemma_digits_value_bounds(digits@);
        lemma_held_exponent(digits_value(digits@), len as nat, exact, e as int, fp@.len());
    }
    match scale_digits(digits.as_slice(), k) {
        Some(u) => Some(u as i64),
        None => None,
    }
}

/// `a` followed by `b`.
fn concat_chars(a: &[char], b: &[char]) -> (r: Vec<char>)
    ensures
        r@ == a@ + b@,
{
    let mut r = copy_range(a, 0, a.len());
    assert(a@.subrange(0, a@.len() as int) =~= a@);
    let mut i: usize = 0;
    while i < b.len()
        invariant
            i <= b@.len(),
            r@ == a@ + b@.take(i as int),
        decreases b@.len() - i,
    {
        r.push(b[i]);
        i = i + 1;
        assert(r@ =~= a@ + b@.take(i as int));
    }
    assert(b@.take(i as int) =~= b@);
    r
}

/// An exponent held at `EXPONENT_CAP` gives the outcome of the exponent it
/// stands for.
proof fn lemma_held_exponent(n: int, len: nat, exact: int, held: int, f: nat)
    requires
        0 <= n < pow10(len),
        len < 0x1_0000_0000_0000_0000,
        f <= len,
        held == (if exact > EXPONENT_CAP { EXPONENT_CAP as int }
            else if exact < -EXPONENT_CAP { -EXPONENT_CAP } else { exact }),
    ensures
        (scaled_units(n, FRACTION_DIGITS + held - f) matches Some(u) && u <= MAX_MAGNITUDE)
            == (scaled_units(n, FRACTION_DIGITS + exact - f) matches Some(u) && u <= MAX_MAGNITUDE),
        (scaled_units(n, FRACTION_DIGITS + held - f) matches Some(u) && u <= MAX_MAGNITUDE)
            ==> scaled_units(n, FRACTION_DIGITS + held - f) == scaled_units(n, FRACTION_DIGITS + exact - f),
{
    if held != exact {
        lemma_same_outcome(n, FRACTION_DIGITS + held - f, FRACTION_DIGITS + exact - f, len);
    }
}

/// Two exponents past every digit, on the same side, give the same outcome.
proof fn lemma_same_outcome(n: int, k1: int, k2: int, len: nat)
    requires
        0 <= n < pow10(len),
        (k1 >= 19 && k2 >= 19) || (k1 < 0 && k2 < 0 && -k1 >= len && -k2 >= len),
        len < 0x1_0000_0000_0000_0000,
    ensures
        (scaled_units(n, k1) matches Some(u) && u <= MAX_MAGNITUDE)
            == (scaled_units(n, k2) matches Some(u) && u <= MAX_MAGNITUDE),
        (scaled_units(n, k1) matches Some(u) && u <= MAX_MAGNITUDE) ==> scaled_units(n, k1) == scaled_units(n, k2),
{
    lemma_pow10_eighteen();
    if k1 >= 19 {
        lemma_pow10_monotone(19, k1 as nat);
        lemma_pow10_monotone(19, k2 as nat);
        if n >= 1 {
            assert(n * pow10(k1 as nat) >= pow10(19)) by (nonlinear_arith)
                requires n >= 1, pow10(k1 as nat) >= pow10(19), pow10(19) >= 0;
            assert(n * pow10(k2 as nat) >= pow10(19)) by (nonlinear_arith)
                requires n >= 1, pow10(k2 as nat) >= pow10(19), pow10(19) >= 0;
        } else {
            assert(n * pow10(k1 as nat) == 0);
            assert(n * pow10(k2 as nat) == 0);
        }
    } else {
        lemma_pow10_monotone(len, (-k1) as nat);
        lemma_pow10_monotone(len, (-k2) as nat);
        lemma_fundamental_div_mod_converse(n, pow10((-k1) as nat), 0, n);
        lemma_fundamental_div_mod_converse(n, pow10((-k2) as nat), 0, n);
    }
}

/// Value in units of a numeral with an optional leading sign.
pub fn parse_decimal(s: &[char]) -> (r: Option<i64>)
    ensures
        r matches Some(v) ==> decimal_value(s@) == Some(v as int) && in_bounds(v as int),
        r is None ==> decimal_value(s@) is None,
{
    let n = s.len();
    if n > 0 && (s[0] == '-' || s[0] == '+') {
        let body = copy_range(s, 1, n);
        assert(body@ =~= s@.drop_first());
        let m = parse_unsigned(body.as_slice());
        match m {
            Some(v) => if s[0] == '-' { Some(-v) } else { Some(v) },
            None => None,
        }
    } else {
        let m = parse_unsigned(s);
        m
    }
}

/// Value of a field of a table row.
pub fn parse_field(s: &[char]) -> (r: Option<i64>)
    ensures
        r matches Some(v) ==> field_value(s@) == Some(v as int) && in_bounds(v as int),
        r is None ==> field_value(s@) is None,
{
    let t = trim_chars(s);
    parse_decimal(t.as_slice())
}

/// The digit character for `d` in `0..10`.
pub open spec fn digit_char(d: int) -> char {
    if d == 0 { '0' } else if d == 1 { '1' } else if d == 2 { '2' } else if d == 3 { '3' }
    else if d == 4 { '4' } else if d == 5 { '5' } else if d == 6 { '6' } else if d == 7 { '7' }
    else if d == 8 { '8' } else { '9' }
}

/// The decimal digits of `n`, most significant first, without leading zeros
/// (one zero for zero).
pub open spec fn digits_of(n: nat) -> Seq<char>
    decreases n,
{
    if n < 10 {
        seq![digit_char(n as int)]
    } else {
        digits_of(n / 10).push(digit_char((n % 10) as int))
    }
}

/// The last `k` decimal digits of `n`, zeros in front where `n` has fewer.
pub open spec fn padded_digits(n: nat, k: nat) -> Seq<char>
    decreases k,
{
    if k == 0 {
        Seq::<char>::empty()
    } else {
        padded_digits(n / 10, (k - 1) as nat).push(digit_char((n % 10) as int))
    }
}

/// `s` without its trailing zeros.
pub open spec fn trim_zeros(s: Seq<char>) -> Seq<char>
    decreases s.len(),
{
    if s.len() > 0 && s.last() == '0' {
        trim_zeros(s.drop_last())
    } else {
        s
    }
}

/// The numeral for a quantity of `v` units: a minus sign where `v` is
/// negative, the whole part, then a point and the fraction digits without
/// trailing zeros where the fraction is not zero.
pub open spec fn decimal_text(v: int) -> Seq<char> {
    let m: int = if v < 0 { -v } else { v };
    let sign = if v < 0 { seq!['-'] } else { Seq::<char>::empty() };
    let f = m % (SCALE as int);
    let frac = if f == 0 {
        Seq::<char>::empty()
    } else {
        seq!['.'] + trim_zeros(padded_digits(f as nat, FRACTION_DIGITS as nat))
    };
    sign + digits_of((m / (SCALE as int)) as nat) + frac
}

fn digit_char_of(d: u64) -> (c: char)
    requires
        d < 10,
    ensures
        c == digit_char(d as int),
{
    if d == 0 { '0' } else if d == 1 { '1' } else if d == 2 { '2' } else if d == 3 { '3' }
    else if d == 4 { '4' } else if d == 5 { '5' } else if d == 6 { '6' } else if d == 7 { '7' }
    else if d == 8 { '8' } else { '9' }
}

fn push_digits(n: u64, out: &mut Vec<char>)
    ensures
        final(out)@ == old(out)@ + digits_of(n as nat),
    decreases n,
{
    if n >= 10 {
        push_digits(n / 10, out);
    }
    out.push(digit_char_of(n % 10));
    proof {
        if n < 10 {
            assert(final(out)@ =~= old(out)@ + digits_of(n as nat));
        }
    }
}

fn push_padded(n: u64, k: usize, out: &mut Vec<char>)
    ensures
        final(out)@ == old(out)@ + padded_digits(n as nat, k as nat),
    decreases k,
{
    if k == 0 {
        assert(old(out)@ + padded_digits(n as nat, 0) =~= old(out)@);
        return;
    }
    push_padded(n / 10, k - 1, out);
    out.push(digit_char_of(n % 10));
    assert(final(out)@ =~= old(out)@ + padded_digits(n as nat, k as nat));
}

/// The numeral for a quantity of `v` units.
pub fn format_decimal(v: i64) -> (r: String)
    requires
        in_bounds(v as int),
    ensures
        r@ == decimal_text(v as int),
{
    let m: u64 = if v < 0 { (-v) as u64 } else { v as u64 };
    let mut out: Vec<char> = Vec::new();
    if v < 0 {
        out.push('-');
    }
    push_digits(m / (SCALE as u64), &mut out);
    let f = m % (SCALE as u64);
    if f != 0 {
        let mut frac: Vec<char> = Vec::new();
        push_padded(f, FRACTION_DIGITS, &mut frac);
        let ghost padded = frac@;
        while frac.len() > 0 && frac[frac.len() - 1] == '0'
            invariant
                trim_zeros(frac@) == trim_zeros(padded),
            decreases frac@.len(),
        {
            frac.pop();
        }
        out.push('.');
        let mut i: usize = 0;
        let ghost head = out@;
        while i < frac.len()
            invariant
                i <= frac@.len(),
                out@ == head + frac@.take(i as int),
            decreases frac@.len() - i,
        {
            out.push(frac[i]);
            i = i + 1;
            assert(out@ =~= head + frac@.take(i as int));
        }
        assert(frac@.take(i as int) =~= frac@);
    }
    let ghost expected = decimal_text(v as int);
    assert(out@ =~= expected);
    string_of(out.as_slice())
}

pub proof fn lemma_digit_char(d: int)
    requires
        0 <= d < 10,
    ensures
        is_digit(digit_char(d)),
        digit_value(digit_char(d)) == d,
{
}

pub proof fn lemma_digits_of(n: nat)
    ensures
        digits_of(n).len() >= 1,
        all_digits(digits_of(n)),
        digits_value(digits_of(n)) == n,
    decreases n,
{
    if n < 10 {
        lemma_digit_char(n as int);
        assert(digits_of(n).drop_last() =~= Seq::<char>::empty());
        assert(digits_value(digits_of(n)) == digits_value(Seq::<char>::empty()) * 10 + n);
    } else {
        lemma_digits_of(n / 10);
        lemma_digit_char((n % 10) as int);
        assert(digits_of(n).drop_last() =~= digits_of(n / 10));
        lemma_fundamental_div_mod(n as int, 10);
        assert(digits_value(digits_of(n)) == digits_value(digits_of(n / 10)) * 10 + (n % 10));
    }
}

pub proof fn lemma_padded_digits(n: nat, k: nat)
    ensures
        padded_digits(n, k).len() == k,
        all_digits(padded_digits(n, k)),
        digits_value(padded_digits(n, k)) == (n as int) % pow10(k),
    decreases k,
{
    if k == 0 {
        lemma_mod_one(n);
    } else {
        lemma_padded_digits(n / 10, (k - 1) as nat);
        lemma_digit_char((n % 10) as int);
        assert(padded_digits(n, k).drop_last() =~= padded_digits(n / 10, (k - 1) as nat));
        lemma_pow10_add((k - 1) as nat, 0);
        lemma_mod_breakdown(n as int, 10, pow10((k - 1) as nat));
        assert(10 * pow10((k - 1) as nat) == pow10(k));
        assert(digits_value(padded_digits(n, k)) == (((n / 10) as int) % pow10((k - 1) as nat)) * 10 + (n as int) % 10);
    }
}

proof fn lemma_mod_one(n: nat)
    ensures
        (n as int) % pow10(0) == 0,
{
}

pub proof fn lemma_trim_zeros(s: Seq<char>)
    requires
        all_digits(s),
    ensures
        trim_zeros(s).len() <= s.len(),
        trim_zeros(s) == s.take(trim_zeros(s).len() as int),
        all_digits(trim_zeros(s)),
        digits_value(s) == digits_value(trim_zeros(s)) * pow10((s.len() - trim_zeros(s).len()) as nat),
        trim_zeros(s).len() > 0 ==> trim_zeros(s).last() != '0',
    decreases s.len(),
{
    if s.len() > 0 && s.last() == '0' {
        let t = trim_zeros(s.drop_last());
        assert(all_digits(s.drop_last()));
        lemma_trim_zeros(s.drop_last());
        let m = (s.drop_last().len() - t.len()) as nat;
        assert(t =~= s.take(t.len() as int));
        assert((s.len() - t.len()) as nat == m + 1);
        lemma_pow10_add(1, m);
        reveal_with_fuel(pow10, 2);
        assert(digits_value(s) == digits_value(s.drop_last()) * 10);
        assert(digits_value(t) * pow10(m) * 10 == digits_value(t) * pow10((m + 1) as nat)) by (nonlinear_arith)
            requires pow10(1) * pow10(m) == pow10((1 + m) as nat), pow10(1) == 10;
    } else {
        assert(s =~= s.take(s.len() as int));
    }
}

/// A string of digits and points holds no exponent marker.
proof fn lemma_exponent_free(body: Seq<char>)
    requires
        forall|i: int| 0 <= i < body.len() ==> is_digit(#[trigger] body[i]) || body[i] == '.',
    ensures
        fields(fold_exponents(body), 'e') == seq![body],
{
    assert(fold_exponents(body) =~= body);
    lemma_fields_free(body, 'e');
}

/// The numeral for `v` reads back as `v`, and holds no comma and no blank at
/// either end.
pub proof fn lemma_decimal_round_trip(v: int)
    requires
        in_bounds(v),
    ensures
        field_value(decimal_text(v)) == Some(v),
        free_of(decimal_text(v), ','),
{
    let m: int = if v < 0 { -v } else { v };
    let w = m / (SCALE as int);
    let f = m % (SCALE as int);
    lemma_fundamental_div_mod(m, SCALE as int);
    assert(0 <= w) by {
        lemma_div_is_ordered(0, m, SCALE as int);
    }
    lemma_pow10_nine();
    lemma_digits_of(w as nat);
    let ip = digits_of(w as nat);
    let sign = if v < 0 { seq!['-'] } else { Seq::<char>::empty() };
    let body = if f == 0 { ip } else {
        ip + seq!['.'] + trim_zeros(padded_digits(f as nat, FRACTION_DIGITS as nat))
    };
    assert forall|i: int| 0 <= i < ip.len() implies ip[i] != '.' && ip[i] != ',' by {
        assert(is_digit(ip[i]));
    }
    if f == 0 {
        assert(decimal_text(v) =~= sign + body);
        lemma_fields_free(ip, '.');
        lemma_exponent_free(body);
        assert(ip + Seq::<char>::empty() =~= ip);
        assert(unsigned_value(body) == Some(w * SCALE));
    } else {
        let p = padded_digits(f as nat, FRACTION_DIGITS as nat);
        lemma_padded_digits(f as nat, FRACTION_DIGITS as nat);
        lemma_trim_zeros(p);
        let t = trim_zeros(p);
        lemma_pow10_nine();
        assert(f % pow10(9) == f) by {
            lemma_small_mod(f as nat, SCALE as nat);
        }
        assert(t.len() > 0) by {
            if t.len() == 0 {
                assert(digits_value(t) == 0);
                assert(digits_value(p) == 0) by (nonlinear_arith)
                    requires digits_value(p) == digits_value(t) * pow10((p.len() - t.len()) as nat), digits_value(t) == 0;
            }
        }
        assert forall|i: int| 0 <= i < t.len() implies t[i] != '.' && t[i] != ',' by {
            assert(is_digit(t[i]));
        }
        lemma_fields_after_sep(ip, t, '.');
        lemma_fields_free(ip, '.');
        assert(decimal_text(v) =~= sign + body);
        assert(fields(body, '.') =~= seq![ip, t]);
        lemma_exponent_free(body);
        lemma_digits_value_concat(ip, t);
        let k = (FRACTION_DIGITS - t.len()) as nat;
        lemma_pow10_add(t.len(), k);
        assert(digits_value(p) == digits_value(t) * pow10(k));
        assert((w * pow10(t.len()) + digits_value(t)) * pow10(k)
            == w * (pow10(t.len()) * pow10(k)) + digits_value(t) * pow10(k)) by (nonlinear_arith);
        assert(scaled_units(digits_value(ip + t), FRACTION_DIGITS - t.len()) == Some(m));
        assert(unsigned_value(body) == Some(m));
        assert(is_digit(t.last()));
    }
    assert(body.len() > 0 && is_digit(body[0])) by {
        assert(body[0] == ip[0]);
    }
    assert(is_digit(body.last())) by {
        if f == 0 {
            assert(is_digit(ip[ip.len() - 1]));
        }
    }
    if v < 0 {
        assert((sign + body).drop_first() =~= body);
    }
    assert(decimal_text(v) == sign + body);
    lemma_trim_unblanked(decimal_text(v));
    assert forall|i: int| 0 <= i < decimal_text(v).len() implies decimal_text(v)[i] != ',' by {
        if v < 0 && i == 0 {
        } else {
            let j = if v < 0 { i - 1 } else { i };
            assert(decimal_text(v)[i] == body[j]);
            if f != 0 && j >= ip.len() + 1 {
                let t = trim_zeros(padded_digits(f as nat, FRACTION_DIGITS as nat));
                assert(body[j] == t[j - ip.len() - 1]);
            }
        }
    }
}

} // verus!
