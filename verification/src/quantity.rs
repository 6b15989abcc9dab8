//! Exact rational quantities and the textual quantity parser.
//!
//! A quantity is held as a fraction of two `u64` values instead of a binary
//! floating-point number, so every parse result and every sum is exact and
//! its decimal rendering is fully specified.

use vstd::prelude::*;
use vstd::arithmetic::div_mod::{
    lemma_fundamental_div_mod, lemma_mod_multiples_basic,
};
use vstd::arithmetic::mul::lemma_mul_upper_bound;
use vstd::string::*;

verus! {

/// A non-negative rational amount `num / den`. Well-formed values have a
/// positive denominator.
#[derive(Clone, Copy, Debug, PartialEq, Eq, Structural)]
pub struct Quantity {
    pub num: u64,
    pub den: u64,
}

impl Quantity {
    /// A quantity is well-formed when its denominator is positive.
    pub open spec fn wf(self) -> bool {
        self.den >= 1
    }

    /// The quantity is exactly the rational `n / d`.
    pub open spec fn is_frac(self, n: int, d: int) -> bool {
        self.num * d == n * self.den
    }

    /// A quantity of zero means "unspecified / to taste".
    pub open spec fn is_zero(self) -> bool {
        self.num == 0
    }
}

/// Greatest common divisor by Euclid's rule.
pub open spec fn gcd(a: nat, b: nat) -> nat
    decreases b,
{
    if b == 0 {
        a
    } else {
        gcd(b, a % b)
    }
}

/// `d` divides `n` exactly.
pub open spec fn divides(d: nat, n: nat) -> bool {
    d != 0 && n % d == 0
}

/// If `d` divides `b` and `d` divides `a % b` (with `b > 0`), then `d` divides `a`.
proof fn lemma_divides_mod(d: nat, a: nat, b: nat)
    requires
        b > 0,
        divides(d, b),
        divides(d, (a % b) as nat),
    ensures
        divides(d, a),
{
    lemma_fundamental_div_mod(a as int, b as int);
    // a == b * (a / b) + a % b
    let q = a as int / b as int;
    let r = (a % b) as int;
    assert(b as int == d * (b / d)) by {
        lemma_fundamental_div_mod(b as int, d as int);
    }
    assert(r == d * (r / d as int)) by {
        lemma_fundamental_div_mod(r, d as int);
    }
    assert(a as int == d * ((b as int / d as int) * q + (r / d as int))) by (nonlinear_arith)
        requires
            a as int == b as int * q + r,
            b as int == d * (b as int / d as int),
            r == d * (r / d as int),
    ;
    let k = (b as int / d as int) * q + (r / d as int);
    assert(a as int % d as int == (d as int * k) % d as int);
    assert((d as int * k) % d as int == 0) by {
        lemma_mod_multiples_basic(k, d as int);
    }
}

/// The gcd of `a` and `b` divides both, and is positive unless both are zero.
pub proof fn lemma_gcd_divides(a: nat, b: nat)
    ensures
        a + b > 0 ==> gcd(a, b) >= 1,
        gcd(a, b) >= 1 ==> divides(gcd(a, b), a) || a == 0,
        gcd(a, b) >= 1 ==> a % gcd(a, b) == 0,
        gcd(a, b) >= 1 ==> b % gcd(a, b) == 0,
        b > 0 ==> gcd(a, b) >= 1 && gcd(a, b) <= b,
    decreases b,
{
    if b == 0 {
        if a > 0 {
            lemma_mod_multiples_basic(1int, a as int);
            assert(a % a == 0) by {
                lemma_fundamental_div_mod(a as int, a as int);
                lemma_mod_multiples_basic(1int, a as int);
            }
        }
    } else {
        let r = (a % b) as nat;
        assert(r < b) by {
            lemma_fundamental_div_mod(a as int, b as int);
        }
        lemma_gcd_divides(b, r);
        let g = gcd(b, r);
        assert(g >= 1);
        assert(b % g == 0);
        if r > 0 {
            assert(r % g == 0);
            lemma_divides_mod(g, a, b);
        } else {
            // a % b == 0, and g divides b, so g divides a
            lemma_divides_mod(g, a, b);
        }
        // g <= b since g divides b and b > 0
        assert(g <= b) by {
            lemma_fundamental_div_mod(b as int, g as int);
            if g > b {
                assert(b % g == b) by {
                    vstd::arithmetic::div_mod::lemma_small_mod(b, g);
                }
            }
        }
    }
}

/// Euclid's algorithm; the executable twin of [`gcd`].
pub fn gcd_u128(a: u128, b: u128) -> (g: u128)
    ensures
        g as nat == gcd(a as nat, b as nat),
    decreases b,
{
    if b == 0 {
        a
    } else {
        gcd_u128(b, a % b)
    }
}

/// `n / d` in lowest terms (for `d >= 1`).
pub open spec fn reduce(n: nat, d: nat) -> (nat, nat) {
    let g = gcd(n, d);
    (n / g, d / g)
}

/// Reducing keeps the value: the reduced pair is the same rational.
pub proof fn lemma_reduce_exact(n: nat, d: nat)
    requires
        d >= 1,
    ensures
        reduce(n, d).1 >= 1,
        reduce(n, d).0 * d == n * reduce(n, d).1,
        reduce(n, d).0 <= n,
        reduce(n, d).1 <= d,
{
    let g = gcd(n, d);
    lemma_gcd_divides(n, d);
    assert(g >= 1);
    let n2 = n / g;
    let d2 = d / g;
    lemma_fundamental_div_mod(n as int, g as int);
    lemma_fundamental_div_mod(d as int, g as int);
    assert(n == g * n2);
    assert(d == g * d2);
    assert(d2 >= 1) by (nonlinear_arith)
        requires
            d == g * d2,
            d >= 1,
            g >= 1,
    ;
    assert(n2 * d == n * d2) by (nonlinear_arith)
        requires
            n == g * n2,
            d == g * d2,
    ;
    assert(n2 <= n) by (nonlinear_arith)
        requires
            n == g * n2,
            g >= 1,
            n2 >= 0,
    ;
    assert(d2 <= d) by (nonlinear_arith)
        requires
            d == g * d2,
            g >= 1,
            d2 >= 0,
    ;
}

/// The exact value of a single vulgar-fraction glyph, if the glyph belongs to
/// the fixed table.
pub open spec fn spec_numeric(c: char) -> Option<Quantity> {
    match c {
        '\u{00bc}' => Some(Quantity { num: 1, den: 4 }),
        '\u{00bd}' => Some(Quantity { num: 1, den: 2 }),
        '\u{00be}' => Some(Quantity { num: 3, den: 4 }),
        '\u{2150}' => Some(Quantity { num: 1, den: 7 }),
        '\u{2151}' => Some(Quantity { num: 1, den: 9 }),
        '\u{2152}' => Some(Quantity { num: 1, den: 10 }),
        '\u{2153}' => Some(Quantity { num: 1, den: 3 }),
        '\u{2154}' => Some(Quantity { num: 2, den: 3 }),
        '\u{2155}' => Some(Quantity { num: 1, den: 5 }),
        '\u{2156}' => Some(Quantity { num: 2, den: 5 }),
        '\u{2157}' => Some(Quantity { num: 3, den: 5 }),
        '\u{2158}' => Some(Quantity { num: 4, den: 5 }),
        '\u{2159}' => Some(Quantity { num: 1, den: 6 }),
        '\u{215a}' => Some(Quantity { num: 5, den: 6 }),
        '\u{215b}' => Some(Quantity { num: 1, den: 8 }),
        '\u{215c}' => Some(Quantity { num: 3, den: 8 }),
        '\u{215d}' => Some(Quantity { num: 5, den: 8 }),
        '\u{215e}' => Some(Quantity { num: 7, den: 8 }),
        '\u{215f}' => Some(Quantity { num: 1, den: 1 }),
        '\u{2189}' => Some(Quantity { num: 0, den: 1 }),
        _ => None,
    }
}

/// Looks a vulgar-fraction glyph up in the fixed table.
pub fn numeric(c: &char) -> (r: Option<Quantity>)
    ensures
        r == spec_numeric(*c),
        r is Some ==> r->Some_0.wf(),
{
    match *c {
        '\u{00bc}' => Some(Quantity { num: 1, den: 4 }),
        '\u{00bd}' => Some(Quantity { num: 1, den: 2 }),
        '\u{00be}' => Some(Quantity { num: 3, den: 4 }),
        '\u{2150}' => Some(Quantity { num: 1, den: 7 }),
        '\u{2151}' => Some(Quantity { num: 1, den: 9 }),
        '\u{2152}' => Some(Quantity { num: 1, den: 10 }),
        '\u{2153}' => Some(Quantity { num: 1, den: 3 }),
        '\u{2154}' => Some(Quantity { num: 2, den: 3 }),
        '\u{2155}' => Some(Quantity { num: 1, den: 5 }),
        '\u{2156}' => Some(Quantity { num: 2, den: 5 }),
        '\u{2157}' => Some(Quantity { num: 3, den: 5 }),
        '\u{2158}' => Some(Quantity { num: 4, den: 5 }),
        '\u{2159}' => Some(Quantity { num: 1, den: 6 }),
        '\u{215a}' => Some(Quantity { num: 5, den: 6 }),
        '\u{215b}' => Some(Quantity { num: 1, den: 8 }),
        '\u{215c}' => Some(Quantity { num: 3, den: 8 }),
        '\u{215d}' => Some(Quantity { num: 5, den: 8 }),
        '\u{215e}' => Some(Quantity { num: 7, den: 8 }),
        '\u{215f}' => Some(Quantity { num: 1, den: 1 }),
        '\u{2189}' => Some(Quantity { num: 0, den: 1 }),
        _ => None,
    }
}

/// Decimal digits.
pub open spec fn is_digit(c: char) -> bool {
    '0' <= c && c <= '9'
}

/// Numeric value of one digit character.
pub open spec fn digit_val(c: char) -> nat {
    (c as int - '0' as int) as nat
}

/// Value of a digit string read in base ten.
pub open spec fn digits_val(s: Seq<char>) -> nat
    decreases s.len(),
{
    if s.len() == 0 {
        0
    } else {
        digits_val(s.drop_last()) * 10 + digit_val(s.last())
    }
}

/// Ten to the `k`.
pub open spec fn pow10(k: nat) -> nat
    decreases k,
{
    if k == 0 {
        1
    } else {
        10 * pow10((k - 1) as nat)
    }
}

/// Number of `'.'` characters in the token.
pub open spec fn count_dots(s: Seq<char>) -> nat
    decreases s.len(),
{
    if s.len() == 0 {
        0
    } else {
        count_dots(s.drop_last()) + if s.last() == '.' { 1nat } else { 0nat }
    }
}

/// Number of characters after the last `'.'` (the whole length if no dot).
pub open spec fn after_dot(s: Seq<char>) -> nat
    decreases s.len(),
{
    if s.len() == 0 {
        0
    } else if s.last() == '.' {
        0
    } else {
        after_dot(s.drop_last()) + 1
    }
}

/// The token's digits with the dot removed, in order.
pub open spec fn dec_digits(s: Seq<char>) -> Seq<char>
    decreases s.len(),
{
    if s.len() == 0 {
        Seq::empty()
    } else if s.last() == '.' {
        dec_digits(s.drop_last())
    } else {
        dec_digits(s.drop_last()).push(s.last())
    }
}

/// An ordinary decimal token: digits with at most one dot among them and at
/// least one digit (`"3"`, `"1.5"`, `"2."`, `".75"`).
pub open spec fn is_dec_token(s: Seq<char>) -> bool {
    &&& s.len() >= 1
    &&& count_dots(s) <= 1
    &&& (forall|i: int| 0 <= i < s.len() ==> is_digit(#[trigger] s[i]) || s[i] == '.')
    &&& (exists|i: int| 0 <= i < s.len() && is_digit(#[trigger] s[i]))
}

/// Number of fraction digits of a decimal token.
pub open spec fn frac_len(s: Seq<char>) -> nat {
    if count_dots(s) == 0 {
        0
    } else {
        after_dot(s)
    }
}

/// The token's exact value is `dec_raw_num(s) / dec_raw_den(s)`.
pub open spec fn dec_raw_num(s: Seq<char>) -> nat {
    digits_val(dec_digits(s))
}

/// See [`dec_raw_num`].
pub open spec fn dec_raw_den(s: Seq<char>) -> nat {
    pow10(frac_len(s))
}

/// A decimal token is representable when it has at most 19 fraction digits
/// and its value in lowest terms fits `u64 / u64`.
pub open spec fn dec_fits(s: Seq<char>) -> bool {
    &&& frac_len(s) <= 19
    &&& reduce(dec_raw_num(s), dec_raw_den(s)).0 <= u64::MAX
}

/// The exact quantity of a representable decimal token, in lowest terms.
pub open spec fn dec_quantity(s: Seq<char>) -> Quantity {
    Quantity {
        num: reduce(dec_raw_num(s), dec_raw_den(s)).0 as u64,
        den: reduce(dec_raw_num(s), dec_raw_den(s)).1 as u64,
    }
}

/// Whitespace, for separating the parts of a mixed number.
pub open spec fn is_ws(c: char) -> bool {
    c == ' ' || c == '\t' || c == '\n' || c == '\r' || c == '\u{0b}' || c == '\u{0c}'
}

/// Length of the leading run of non-whitespace characters.
pub open spec fn word_len(s: Seq<char>) -> nat
    decreases s.len(),
{
    if s.len() == 0 || is_ws(s[0]) {
        0
    } else {
        word_len(s.drop_first()) + 1
    }
}

/// The whitespace-separated parts of the input, in order.
pub open spec fn split_ws(s: Seq<char>) -> Seq<Seq<char>>
    decreases s.len(),
    via split_ws_decreases
{
    if s.len() == 0 {
        Seq::empty()
    } else if is_ws(s[0]) {
        split_ws(s.drop_first())
    } else {
        seq![s.take(word_len(s) as int)] + split_ws(s.skip(word_len(s) as int))
    }
}

/// The leading word is never longer than the string.
proof fn lemma_word_len_le(s: Seq<char>)
    ensures
        word_len(s) <= s.len(),
    decreases s.len(),
{
    if s.len() > 0 && !is_ws(s[0]) {
        lemma_word_len_le(s.drop_first());
    }
}

#[via_fn]
proof fn split_ws_decreases(s: Seq<char>) {
    if s.len() > 0 && !is_ws(s[0]) {
        assert(word_len(s) == word_len(s.drop_first()) + 1);
        lemma_word_len_le(s);
    }
}

/// A maximal run of non-whitespace at the front has exactly length `m`.
proof fn lemma_word_len_is(s: Seq<char>, m: int)
    requires
        0 <= m <= s.len(),
        forall|k: int| 0 <= k < m ==> !is_ws(#[trigger] s[k]),
        m == s.len() || is_ws(s[m]),
    ensures
        word_len(s) == m,
    decreases m,
{
    if m == 0 {
    } else {
        lemma_word_len_is(s.drop_first(), m - 1);
    }
}

/// The executable characters of a string.
fn chars_of(s: &str) -> (v: Vec<char>)
    ensures
        v@ =~= s@,
{
    let n = s.unicode_len();
    let mut v: Vec<char> = Vec::new();
    let mut i: usize = 0;
    while i < n
        invariant
            i <= n,
            n == s@.len(),
            v@ =~= s@.take(i as int),
        decreases n - i,
    {
        v.push(s.get_char(i));
        i = i + 1;
        proof {
            assert(v@ =~= s@.take(i as int));
        }
    }
    proof {
        assert(s@.take(n as int) =~= s@);
    }
    v
}

/// Executable twin of [`is_ws`].
fn is_ws_exec(c: char) -> (r: bool)
    ensures
        r == is_ws(c),
{
    c == ' ' || c == '\t' || c == '\n' || c == '\r' || c == '\u{0b}' || c == '\u{0c}'
}

/// Splits the characters at whitespace, mirroring [`split_ws`].
fn split_tokens(v: &Vec<char>) -> (parts: Vec<Vec<char>>)
    ensures
        parts@.map_values(|p: Vec<char>| p@) =~= split_ws(v@),
{
    let mut parts: Vec<Vec<char>> = Vec::new();
    let mut i: usize = 0;
    proof {
        assert(v@.skip(0) =~= v@);
        assert(Seq::<Vec<char>>::empty().map_values(|p: Vec<char>| p@) =~= Seq::<Seq<
            char,
        >>::empty());
    }
    while i < v.len()
        invariant
            i <= v@.len(),
            split_ws(v@) =~= parts@.map_values(|p: Vec<char>| p@) + split_ws(v@.skip(i as int)),
        decreases v@.len() - i,
    {
        if is_ws_exec(v[i]) {
            proof {
                assert(v@.skip(i as int).drop_first() =~= v@.skip(i + 1));
            }
            i = i + 1;
        } else {
            let ghost start_seq = v@.skip(i as int);
            let start = i;
            let mut w: Vec<char> = Vec::new();
            loop
                invariant
                    start <= i <= v@.len(),
                    forall|k: int| start <= k < i ==> !is_ws(#[trigger] v@[k]),
                    w@ =~= v@.subrange(start as int, i as int),
                ensures
                    start <= i <= v@.len(),
                    forall|k: int| start <= k < i ==> !is_ws(#[trigger] v@[k]),
                    w@ =~= v@.subrange(start as int, i as int),
                    i == v@.len() || is_ws(v@[i as int]),
                decreases v@.len() - i,
            {
                if i == v.len() {
                    break;
                }
                let c = v[i];
                if is_ws_exec(c) {
                    break;
                }
                w.push(c);
                i = i + 1;
                proof {
                    assert(w@ =~= v@.subrange(start as int, i as int));
                }
            }
            proof {
                let m = i - start;
                assert forall|k: int| 0 <= k < m implies !is_ws(#[trigger] start_seq[k]) by {
                    assert(start_seq[k] == v@[start + k]);
                }
                if i < v@.len() {
                    assert(start_seq[m] == v@[i as int]);
                }
                lemma_word_len_is(start_seq, m);
                assert(start_seq.take(m) =~= v@.subrange(start as int, i as int));
                assert(start_seq.skip(m) =~= v@.skip(i as int));
                assert(split_ws(start_seq) =~= seq![w@] + split_ws(v@.skip(i as int)));
                let f = |p: Vec<char>| p@;
                assert(parts@.push(w).map_values(f) =~= parts@.map_values(f).push(w@));
            }
            parts.push(w);
        }
    }
    proof {
        assert(v@.skip(v@.len() as int) =~= Seq::<char>::empty());
    }
    parts
}

/// Unfolding the token-shape functions over one appended character.
proof fn lemma_scan_push(s: Seq<char>, c: char)
    ensures
        c == '.' ==> count_dots(s.push(c)) == count_dots(s) + 1,
        c != '.' ==> count_dots(s.push(c)) == count_dots(s),
        c == '.' ==> after_dot(s.push(c)) == 0,
        c != '.' ==> after_dot(s.push(c)) == after_dot(s) + 1,
        c == '.' ==> dec_digits(s.push(c)) == dec_digits(s),
        c != '.' ==> dec_digits(s.push(c)) == dec_digits(s).push(c),
{
    assert(s.push(c).drop_last() =~= s);
    assert(s.push(c).last() == c);
}

/// Base-ten accumulation over one appended digit.
proof fn lemma_digits_val_push(s: Seq<char>, c: char)
    ensures
        digits_val(s.push(c)) == digits_val(s) * 10 + digit_val(c),
        digits_val(s.push(c)) >= digits_val(s) * 10,
{
    assert(s.push(c).drop_last() =~= s);
    assert(s.push(c).last() == c);
}

/// Powers of ten are positive and monotone.
proof fn lemma_pow10_pos(k: nat)
    ensures
        pow10(k) >= 1,
    decreases k,
{
    if k > 0 {
        lemma_pow10_pos((k - 1) as nat);
    }
}

proof fn lemma_pow10_mono(a: nat, b: nat)
    requires
        a <= b,
    ensures
        pow10(a) <= pow10(b),
    decreases b,
{
    if a < b {
        lemma_pow10_mono(a, (b - 1) as nat);
        lemma_pow10_pos((b - 1) as nat);
    }
}

/// The value of ten to the nineteenth, by unfolding.
proof fn lemma_pow10_19()
    ensures
        pow10(19) == 10_000_000_000_000_000_000,
        pow10(18) == 1_000_000_000_000_000_000,
{
    reveal_with_fuel(pow10, 21);
}

/// If `n` is larger than `m` times the denominator, the reduced numerator is
/// larger than `m`.
proof fn lemma_reduce_lower(n: nat, d: nat, m: nat)
    requires
        d >= 1,
        n > m * d,
    ensures
        reduce(n, d).0 > m,
{
    let g = gcd(n, d);
    lemma_gcd_divides(n, d);
    lemma_fundamental_div_mod(n as int, g as int);
    assert(n == g * (n / g));
    assert(g <= d);
    assert(n / g > m) by (nonlinear_arith)
        requires
            n == g * (n / g),
            n > m * d,
            1 <= g <= d,
            m >= 0,
            n / g >= 0,
    ;
}

/// Outcome of scanning one candidate decimal token.
enum DecScan {
    NotDecimal,
    TooBig,
    Val(Quantity),
}

/// Ten to the `k` as a machine integer, for small `k`.
fn pow10_u64(k: usize) -> (r: u64)
    requires
        k <= 19,
    ensures
        r as nat == pow10(k as nat),
{
    let mut r: u64 = 1;
    let mut j: usize = 0;
    while j < k
        invariant
            j <= k <= 19,
            r as nat == pow10(j as nat),
        decreases k - j,
    {
        proof {
            lemma_pow10_19();
            lemma_pow10_mono((j + 1) as nat, 19);
        }
        r = r * 10;
        j = j + 1;
    }
    r
}

/// Scans one token for the ordinary-decimal shape and computes its exact
/// value in lowest terms.
fn scan_dec(p: &Vec<char>) -> (r: DecScan)
    ensures
        (r is NotDecimal) <==> !is_dec_token(p@),
        is_dec_token(p@) && dec_fits(p@) ==> r == DecScan::Val(dec_quantity(p@)),
        is_dec_token(p@) && !dec_fits(p@) ==> r is TooBig,
        r matches DecScan::Val(q) ==> q.wf() && dec_fits(p@),
{
    let cap: u128 = 0xFFFF_FFFF_FFFF_FFFFu128 * 1_000_000_000_000_000_000u128;
    proof {
        lemma_pow10_19();
        assert(cap == u64::MAX as nat * pow10(18));
    }
    let mut acc: u128 = 0;
    let mut too_big = false;
    let mut dots: usize = 0;
    let mut k: usize = 0;
    let mut valid = true;
    let mut has_digit = false;
    let mut i: usize = 0;
    while i < p.len()
        invariant
            i <= p@.len(),
            dots <= i,
            k <= i,
            cap == u64::MAX as nat * pow10(18),
            dots == count_dots(p@.take(i as int)),
            valid <==> (forall|j: int| 0 <= j < i ==> is_digit(#[trigger] p@[j]) || p@[j] == '.'),
            has_digit <==> (exists|j: int| 0 <= j < i && is_digit(#[trigger] p@[j])),
            valid && dots >= 1 ==> k == after_dot(p@.take(i as int)),
            valid && dots == 0 ==> k == 0,
            !too_big ==> acc <= cap * 10 + 9,
            valid && !too_big ==> acc == digits_val(dec_digits(p@.take(i as int))),
            valid && too_big ==> digits_val(dec_digits(p@.take(i as int))) > u64::MAX as nat
                * pow10(19),
        decreases p@.len() - i,
    {
        let c = p[i];
        proof {
            assert(p@.take(i + 1).drop_last() =~= p@.take(i as int));
            assert(p@.take(i + 1).last() == p@[i as int]);
            assert(p@.take(i + 1) == p@.take(i as int).push(p@[i as int]));
            lemma_scan_push(p@.take(i as int), p@[i as int]);
            lemma_digits_val_push(dec_digits(p@.take(i as int)), p@[i as int]);
        }
        if c == '.' {
            dots = dots + 1;
            k = 0;
        } else {
            if c >= '0' && c <= '9' {
                has_digit = true;
                if dots >= 1 {
                    k = k + 1;
                }
                let d = (c as u32 - '0' as u32) as u128;
                if too_big {
                    proof {
                        let prev = digits_val(dec_digits(p@.take(i as int)));
                        assert(prev * 10 >= prev) by (nonlinear_arith)
                            requires
                                prev >= 0,
                        ;
                    }
                } else if acc > cap {
                    too_big = true;
                    proof {
                        if valid {
                            let prev = digits_val(dec_digits(p@.take(i as int)));
                            assert(prev * 10 > cap * 10) by (nonlinear_arith)
                                requires
                                    prev > cap,
                            ;
                            assert(cap * 10 == u64::MAX as nat * pow10(19)) by {
                                lemma_pow10_19();
                            }
                        }
                    }
                } else {
                    proof {
                        lemma_pow10_19();
                        assert(acc * 10 + d <= cap * 10 + 9 <= u128::MAX);
                    }
                    acc = acc * 10 + d;
                }
            } else {
                valid = false;
            }
        }
        i = i + 1;
    }
    proof {
        assert(p@.take(p@.len() as int) =~= p@);
    }
    if !valid || dots > 1 || !has_digit {
        return DecScan::NotDecimal;
    }
    proof {
        assert(is_dec_token(p@));
        if dots == 0 {
            assert(frac_len(p@) == 0);
        } else {
            assert(frac_len(p@) == k);
        }
    }
    if k > 19 {
        return DecScan::TooBig;
    }
    if too_big {
        proof {
            lemma_pow10_mono(frac_len(p@), 19);
            lemma_pow10_pos(frac_len(p@));
            let raw = dec_raw_num(p@);
            let d = dec_raw_den(p@);
            assert(u64::MAX as nat * pow10(19) >= u64::MAX as nat * d) by (nonlinear_arith)
                requires
                    d <= pow10(19),
                    d >= 0,
            ;
            lemma_reduce_lower(raw, d, u64::MAX as nat);
        }
        return DecScan::TooBig;
    }
    let den = pow10_u64(k);
    proof {
        lemma_pow10_pos(k as nat);
    }
    let g = gcd_u128(acc, den as u128);
    proof {
        lemma_gcd_divides(acc as nat, den as nat);
        lemma_reduce_exact(acc as nat, den as nat);
    }
    let n2 = acc / g;
    let d2 = (den as u128) / g;
    if n2 > u64::MAX as u128 {
        return DecScan::TooBig;
    }
    DecScan::Val(Quantity { num: n2 as u64, den: d2 as u64 })
}

/// The value of a one-glyph token, if any.
pub open spec fn glyph_of(p: Seq<char>) -> Option<Quantity> {
    if p.len() == 1 {
        spec_numeric(p[0])
    } else {
        None
    }
}

/// Raw numerator of a mixed number `whole + glyph`.
pub open spec fn mixed_raw_num(p0: Seq<char>, g: Quantity) -> nat {
    (dec_quantity(p0).num * g.den + g.num * dec_quantity(p0).den) as nat
}

/// Raw denominator of a mixed number `whole + glyph`.
pub open spec fn mixed_raw_den(p0: Seq<char>, g: Quantity) -> nat {
    (dec_quantity(p0).den * g.den) as nat
}

/// A mixed number is representable when its whole part is and the exact sum
/// in lowest terms fits `u64 / u64`.
pub open spec fn mixed_fits(p0: Seq<char>, p1: Seq<char>) -> bool {
    let g = glyph_of(p1)->Some_0;
    &&& dec_fits(p0)
    &&& reduce(mixed_raw_num(p0, g), mixed_raw_den(p0, g)).0 <= u64::MAX
    &&& reduce(mixed_raw_num(p0, g), mixed_raw_den(p0, g)).1 <= u64::MAX
}

/// The exact value of a representable mixed number, in lowest terms.
pub open spec fn mixed_quantity(p0: Seq<char>, p1: Seq<char>) -> Quantity {
    let g = glyph_of(p1)->Some_0;
    Quantity {
        num: reduce(mixed_raw_num(p0, g), mixed_raw_den(p0, g)).0 as u64,
        den: reduce(mixed_raw_num(p0, g), mixed_raw_den(p0, g)).1 as u64,
    }
}

/// The input parses to a quantity: one decimal token, one glyph, or a
/// whitespace-separated pair of both.
pub open spec fn parse_ok(s: Seq<char>) -> bool {
    let parts = split_ws(s);
    if parts.len() == 1 {
        if is_dec_token(parts[0]) {
            dec_fits(parts[0])
        } else {
            glyph_of(parts[0]) is Some
        }
    } else if parts.len() == 2 {
        &&& is_dec_token(parts[0])
        &&& glyph_of(parts[1]) is Some
        &&& mixed_fits(parts[0], parts[1])
    } else {
        false
    }
}

/// The exact parsed value, meaningful when [`parse_ok`] holds.
pub open spec fn parse_val(s: Seq<char>) -> Quantity {
    let parts = split_ws(s);
    if parts.len() == 1 {
        if is_dec_token(parts[0]) {
            dec_quantity(parts[0])
        } else {
            glyph_of(parts[0])->Some_0
        }
    } else {
        mixed_quantity(parts[0], parts[1])
    }
}

/// A lone character that is neither a number nor a known fraction glyph.
pub open spec fn parse_glyph_err(s: Seq<char>) -> bool {
    let parts = split_ws(s);
    &&& parts.len() == 1
    &&& parts[0].len() == 1
    &&& !is_dec_token(parts[0])
    &&& spec_numeric(parts[0][0]) is None
}

/// A well-shaped quantity whose exact value does not fit the representation.
pub open spec fn parse_overflow(s: Seq<char>) -> bool {
    let parts = split_ws(s);
    ||| (parts.len() == 1 && is_dec_token(parts[0]) && !dec_fits(parts[0]))
    ||| (parts.len() == 2 && is_dec_token(parts[0]) && glyph_of(parts[1]) is Some && !mixed_fits(
        parts[0],
        parts[1],
    ))
}

/// Anything else: the feed is malformed.
pub open spec fn parse_malformed(s: Seq<char>) -> bool {
    !parse_ok(s) && !parse_glyph_err(s) && !parse_overflow(s)
}

/// Why a textual quantity was rejected.
#[derive(Debug, PartialEq, Eq)]
pub enum ParseError {
    /// A lone character outside the fraction-glyph table.
    NotAFraction,
    /// The input shape is not a quantity at all; holds the offending text.
    Malformed(String),
    /// The exact value does not fit the fraction representation.
    Overflow,
}

/// Parses a textual quantity: a decimal number, a vulgar-fraction glyph, or a
/// mixed number of the two separated by whitespace.
pub fn parse_quantity(s: &str) -> (r: Result<Quantity, ParseError>)
    ensures
        r is Ok <==> parse_ok(s@),
        r matches Ok(q) ==> q == parse_val(s@) && q.wf(),
        (r matches Err(ParseError::NotAFraction)) <==> parse_glyph_err(s@),
        (r matches Err(ParseError::Overflow)) <==> parse_overflow(s@),
        r matches Err(ParseError::Malformed(t)) ==> t@ == s@,
        parse_malformed(s@) ==> r matches Err(ParseError::Malformed(_)),
{
    let v = chars_of(s);
    let parts = split_tokens(&v);
    proof {
        assert(split_ws(v@) == split_ws(s@));
        assert forall|j: int| 0 <= j < parts@.len() implies #[trigger] split_ws(s@)[j]
            == parts@[j]@ by {
            assert(parts@.map_values(|p: Vec<char>| p@)[j] == parts@[j]@);
        }
    }
    if parts.len() == 1 {
        let p0 = &parts[0];
        match scan_dec(p0) {
            DecScan::Val(q) => Ok(q),
            DecScan::TooBig => Err(ParseError::Overflow),
            DecScan::NotDecimal => {
                if p0.len() == 1 {
                    let c = p0[0];
                    match numeric(&c) {
                        Some(q) => Ok(q),
                        None => Err(ParseError::NotAFraction),
                    }
                } else {
                    Err(ParseError::Malformed(String::from_str(s)))
                }
            },
        }
    } else if parts.len() == 2 {
        let p1 = &parts[1];
        if p1.len() != 1 {
            return Err(ParseError::Malformed(String::from_str(s)));
        }
        let c = p1[0];
        let gq = match numeric(&c) {
            Some(q) => q,
            None => {
                return Err(ParseError::Malformed(String::from_str(s)));
            },
        };
        let p0 = &parts[0];
        match scan_dec(p0) {
            DecScan::NotDecimal => Err(ParseError::Malformed(String::from_str(s))),
            DecScan::TooBig => Err(ParseError::Overflow),
            DecScan::Val(w) => {
                proof {
                    lemma_glyph_bounds(c);
                    lemma_mul_upper_bound(w.num as int, u64::MAX as int, gq.den as int, 10);
                    lemma_mul_upper_bound(gq.num as int, 7, w.den as int, u64::MAX as int);
                    lemma_mul_upper_bound(w.den as int, u64::MAX as int, gq.den as int, 10);
                }
                let t1 = w.num as u128 * gq.den as u128;
                let t2 = gq.num as u128 * w.den as u128;
                let t = t1 + t2;
                let dd = w.den as u128 * gq.den as u128;
                proof {
                    assert(dd >= 1) by (nonlinear_arith)
                        requires
                            w.den >= 1,
                            gq.den >= 1,
                            dd == w.den * gq.den,
                    ;
                    lemma_gcd_divides(t as nat, dd as nat);
                    lemma_reduce_exact(t as nat, dd as nat);
                }
                let g = gcd_u128(t, dd);
                let n2 = t / g;
                let d2 = dd / g;
                if n2 > u64::MAX as u128 || d2 > u64::MAX as u128 {
                    Err(ParseError::Overflow)
                } else {
                    Ok(Quantity { num: n2 as u64, den: d2 as u64 })
                }
            },
        }
    } else {
        Err(ParseError::Malformed(String::from_str(s)))
    }
}

/// Law: a recognized fraction glyph standing alone always parses, to exactly
/// its tabulated value.
pub proof fn lemma_single_glyph_parses(c: char)
    requires
        spec_numeric(c) is Some,
    ensures
        parse_ok(seq![c]),
        parse_val(seq![c]) == spec_numeric(c)->Some_0,
{
    let s = seq![c];
    assert(!is_ws(c));
    assert(!is_digit(c) && c != '.');
    assert(s.drop_first() =~= Seq::<char>::empty());
    assert(word_len(Seq::<char>::empty()) == 0);
    assert(word_len(s) == 1);
    assert(s.take(1) =~= s);
    assert(s.skip(1) =~= Seq::<char>::empty());
    assert(split_ws(Seq::<char>::empty()) =~= Seq::<Seq<char>>::empty());
    assert(split_ws(s) =~= seq![s] + Seq::<Seq<char>>::empty());
    assert(seq![s] + Seq::<Seq<char>>::empty() =~= seq![s]);
    assert(!is_dec_token(s));
    assert(glyph_of(s) == spec_numeric(c));
}

/// Every glyph value in the table is a small fraction.
proof fn lemma_glyph_bounds(c: char)
    ensures
        spec_numeric(c) is Some ==> {
            let q = spec_numeric(c)->Some_0;
            q.num <= 7 && 1 <= q.den <= 10
        },
{
}

/// The exact sum of two quantities in lowest terms, or `None` when the exact
/// sum cannot be represented (its reduced parts exceed `u64`, or its raw
/// numerator exceeds the 128-bit working precision).
pub open spec fn spec_quantity_plus(a: Quantity, b: Quantity) -> Option<Quantity> {
    let n = (a.num * b.den + b.num * a.den) as nat;
    let d = (a.den * b.den) as nat;
    if n > u128::MAX {
        None
    } else {
        let r = reduce(n, d);
        if r.0 <= u64::MAX && r.1 <= u64::MAX {
            Some(Quantity { num: r.0 as u64, den: r.1 as u64 })
        } else {
            None
        }
    }
}

impl Quantity {
    /// Exact rational addition; `None` when the exact sum is not
    /// representable.
    pub fn plus(self, other: Quantity) -> (r: Option<Quantity>)
        requires
            self.wf(),
            other.wf(),
        ensures
            r == spec_quantity_plus(self, other),
            r matches Some(q) ==> q.wf() && q.is_frac(
                self.num * other.den + other.num * self.den,
                self.den * other.den,
            ),
    {
        proof {
            lemma_mul_upper_bound(
                self.num as int,
                u64::MAX as int,
                other.den as int,
                u64::MAX as int,
            );
            lemma_mul_upper_bound(
                other.num as int,
                u64::MAX as int,
                self.den as int,
                u64::MAX as int,
            );
            lemma_mul_upper_bound(
                self.den as int,
                u64::MAX as int,
                other.den as int,
                u64::MAX as int,
            );
        }
        let t1 = self.num as u128 * other.den as u128;
        let t2 = other.num as u128 * self.den as u128;
        match t1.checked_add(t2) {
            None => None,
            Some(t) => {
                let dd = self.den as u128 * other.den as u128;
                proof {
                    assert(dd >= 1) by (nonlinear_arith)
                        requires
                            self.den >= 1,
                            other.den >= 1,
                            dd == self.den * other.den,
                    ;
                    lemma_gcd_divides(t as nat, dd as nat);
                    lemma_reduce_exact(t as nat, dd as nat);
                }
                let g = gcd_u128(t, dd);
                let n2 = t / g;
                let d2 = dd / g;
                if n2 > u64::MAX as u128 || d2 > u64::MAX as u128 {
                    None
                } else {
                    Some(Quantity { num: n2 as u64, den: d2 as u64 })
                }
            },
        }
    }
}

} // verus!
