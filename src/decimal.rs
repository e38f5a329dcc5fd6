//! Locale-formatted numeric cells, read as fixed-point thousandths.
//!
//! A cell is read by the grammar of decimal floating-point text: an optional
//! sign, then `inf`, `infinity` or `nan` in any case, or a number. A number
//! has decimal digits with at most one decimal separator (a comma or a
//! point) and at least one digit, then optionally `e` or `E`, an optional
//! sign and exponent digits. Whole part, fraction and exponent may be as
//! long as they like.
//!
//! What a thousandths count cannot hold is settled as follows: the value is
//! rounded down to a whole number of thousandths (so digits past the third
//! decimal only matter through that rounding); a magnitude beyond
//! `MEASURE_CAP` thousandths, infinity included, is held at `MEASURE_CAP`
//! with its sign; `nan` reads as zero. Any other text reads as zero.
use vstd::arithmetic::div_mod::lemma_fundamental_div_mod_converse;
use vstd::prelude::*;

verus! {

/// Largest magnitude, in thousandths, that a cell reads as.
pub const MEASURE_CAP: i64 = 999_999_999_999_999;

/// Magnitudes from this on are all held at the cap.
pub const SATURATED: i64 = 1_000_000_000_000_000;

/// Exponents are counted up to this magnitude; any larger one puts every
/// nonzero digit far past both ends of the cap.
pub const EXPONENT_LIMIT: i128 = 100_000_000_000_000_000_000;

pub open spec fn is_digit(c: char) -> bool {
    '0' <= c && c <= '9'
}

pub open spec fn digit_value(c: char) -> int {
    c as int - '0' as int
}

pub open spec fn all_digits(s: Seq<char>) -> bool {
    forall|i: int| 0 <= i < s.len() ==> is_digit(#[trigger] s[i])
}

pub open spec fn all_zeros(s: Seq<char>) -> bool {
    forall|i: int| 0 <= i < s.len() ==> #[trigger] s[i] == '0'
}

/// The natural number that a string of decimal digits spells.
pub open spec fn digits_value(s: Seq<char>) -> int
    decreases s.len(),
{
    if s.len() == 0 {
        0
    } else {
        10 * digits_value(s.drop_last()) + digit_value(s.last())
    }
}

pub open spec fn pow10(n: nat) -> int
    decreases n,
{
    if n == 0 {
        1
    } else {
        10 * pow10((n - 1) as nat)
    }
}

/// The locale decimal comma is read as a decimal point.
pub open spec fn normalize_separator(s: Seq<char>) -> Seq<char> {
    s.map_values(|c: char| if c == ',' { '.' } else { c })
}

/// Index of the first `x` or `y` in `s`, or its length when there is none.
pub open spec fn first_of(s: Seq<char>, x: char, y: char) -> int
    decreases s.len(),
{
    if s.len() == 0 {
        0
    } else if s[0] == x || s[0] == y {
        0
    } else {
        1 + first_of(s.drop_first(), x, y)
    }
}

pub open spec fn is_sign(c: char) -> bool {
    c == '+' || c == '-'
}

/// `c` is `w` or, where `w` is a lower-case letter, its upper case.
pub open spec fn same_letter(c: char, w: char) -> bool {
    c == w || ('a' <= w && w <= 'z' && c as u32 + 32 == w as u32)
}

/// `b` spells the lower-case word `w`, in any case.
pub open spec fn same_word(b: Seq<char>, w: Seq<char>) -> bool {
    b.len() == w.len() && forall|i: int| 0 <= i < b.len() ==> same_letter(#[trigger] b[i], w[i])
}

/// The text before the exponent marker.
pub open spec fn mantissa_text(b: Seq<char>) -> Seq<char> {
    b.take(first_of(b, 'e', 'E'))
}

/// The exponent marker and what follows it; empty when there is none.
pub open spec fn exponent_text(b: Seq<char>) -> Seq<char> {
    b.skip(first_of(b, 'e', 'E'))
}

pub open spec fn whole_digits(b: Seq<char>) -> Seq<char> {
    let m = mantissa_text(b);
    m.take(first_of(m, '.', '.'))
}

pub open spec fn fraction_digits(b: Seq<char>) -> Seq<char> {
    let m = mantissa_text(b);
    let p = first_of(m, '.', '.');
    if p < m.len() {
        m.skip(p + 1)
    } else {
        Seq::empty()
    }
}

pub open spec fn exponent_negative(x: Seq<char>) -> bool {
    x.len() >= 2 && x[1] == '-'
}

pub open spec fn exponent_digits(x: Seq<char>) -> Seq<char> {
    if x.len() >= 2 && is_sign(x[1]) {
        x.skip(2)
    } else {
        x.skip(1)
    }
}

pub open spec fn valid_exponent(x: Seq<char>) -> bool {
    x.len() == 0 || (exponent_digits(x).len() >= 1 && all_digits(exponent_digits(x)))
}

pub open spec fn exponent_value(x: Seq<char>) -> int {
    if x.len() == 0 {
        0
    } else if exponent_negative(x) {
        -digits_value(exponent_digits(x))
    } else {
        digits_value(exponent_digits(x))
    }
}

/// `b` is an unsigned decimal number (with a point as separator).
pub open spec fn is_decimal(b: Seq<char>) -> bool {
    &&& all_digits(whole_digits(b))
    &&& all_digits(fraction_digits(b))
    &&& whole_digits(b).len() + fraction_digits(b).len() >= 1
    &&& valid_exponent(exponent_text(b))
}

/// `v * 10^k` rounded down.
pub open spec fn floor_scaled(v: int, k: int) -> int {
    if k >= 0 {
        v * pow10(k as nat)
    } else {
        v / pow10((-k) as nat)
    }
}

pub open spec fn clamp_measure(x: int) -> int {
    if x > MEASURE_CAP {
        MEASURE_CAP as int
    } else if x < -MEASURE_CAP {
        -MEASURE_CAP
    } else {
        x
    }
}

/// The thousandths of the decimal number `b`, negated when `negative`:
/// `±M * 10^(E - F)` with `M` its digits, `F` its fraction digit count and
/// `E` its exponent, in thousandths, rounded down and held within the cap.
pub open spec fn decimal_milli(b: Seq<char>, negative: bool) -> int {
    let f = fraction_digits(b);
    let m = digits_value(whole_digits(b) + f);
    let v = if negative { -m } else { m };
    clamp_measure(floor_scaled(v, exponent_value(exponent_text(b)) - f.len() + 3))
}

/// What the text `t` reads as in thousandths, if it is a number.
pub open spec fn signed_milli(t: Seq<char>) -> Option<int> {
    let negative = t.len() > 0 && t[0] == '-';
    let b = if t.len() > 0 && is_sign(t[0]) {
        t.skip(1)
    } else {
        t
    };
    if same_word(b, "inf"@) || same_word(b, "infinity"@) {
        Some(if negative { -MEASURE_CAP } else { MEASURE_CAP as int })
    } else if same_word(b, "nan"@) {
        Some(0)
    } else if is_decimal(b) {
        Some(decimal_milli(b, negative))
    } else {
        None
    }
}

/// What a numeric cell reads as, in thousandths: zero when it is no number.
pub open spec fn measure_milli(cell: Seq<char>) -> int {
    match signed_milli(normalize_separator(cell)) {
        Some(v) => v,
        None => 0,
    }
}

// ---- facts about digit strings and powers of ten

proof fn lemma_first_of(s: Seq<char>, x: char, y: char, i: int)
    requires
        0 <= i <= s.len(),
        forall|j: int| 0 <= j < i ==> s[j] != x && s[j] != y,
        i == s.len() || s[i] == x || s[i] == y,
    ensures
        first_of(s, x, y) == i,
    decreases i,
{
    if i > 0 {
        assert forall|j: int| 0 <= j < i - 1 implies s.drop_first()[j] != x && s.drop_first()[j] != y by {
            assert(s.drop_first()[j] == s[j + 1]);
        }
        lemma_first_of(s.drop_first(), x, y, i - 1);
    }
}

proof fn lemma_pow10_positive(n: nat)
    ensures
        pow10(n) >= 1,
    decreases n,
{
    if n > 0 {
        lemma_pow10_positive((n - 1) as nat);
    }
}

proof fn lemma_pow10_add(a: nat, b: nat)
    ensures
        pow10(a + b) == pow10(a) * pow10(b),
    decreases b,
{
    if b > 0 {
        lemma_pow10_add(a, (b - 1) as nat);
        assert(pow10(a + b) == 10 * pow10((a + b - 1) as nat));
        assert(10 * (pow10(a) * pow10((b - 1) as nat)) == pow10(a) * (10 * pow10((b - 1) as nat)))
            by (nonlinear_arith);
    }
}

proof fn lemma_pow10_monotone(a: nat, b: nat)
    requires
        a <= b,
    ensures
        pow10(a) <= pow10(b),
{
    lemma_pow10_add(a, (b - a) as nat);
    lemma_pow10_positive(a);
    lemma_pow10_positive((b - a) as nat);
    assert(pow10(a) * pow10((b - a) as nat) >= pow10(a)) by (nonlinear_arith)
        requires
            pow10(a) >= 1,
            pow10((b - a) as nat) >= 1,
    ;
}

proof fn lemma_pow10_16()
    ensures
        pow10(16) == 10_000_000_000_000_000,
{
    reveal_with_fuel(pow10, 17);
}

proof fn lemma_digits_step(s: Seq<char>, m: int)
    requires
        0 <= m < s.len(),
    ensures
        digits_value(s.take(m + 1)) == 10 * digits_value(s.take(m)) + digit_value(s[m]),
{
    assert(s.take(m + 1).drop_last() =~= s.take(m));
}

proof fn lemma_digits_split(a: Seq<char>, b: Seq<char>)
    ensures
        digits_value(a + b) == digits_value(a) * pow10(b.len()) + digits_value(b),
    decreases b.len(),
{
    if b.len() > 0 {
        let b1 = b.drop_last();
        assert((a + b).drop_last() =~= a + b1);
        assert((a + b).last() == b.last());
        lemma_digits_split(a, b1);
        let x = digits_value(a);
        let p = pow10(b1.len());
        assert(10 * (x * p + digits_value(b1)) + digit_value(b.last()) == x * (10 * p) + (10
            * digits_value(b1) + digit_value(b.last()))) by (nonlinear_arith);
    }
}

proof fn lemma_digits_bounds(s: Seq<char>)
    requires
        all_digits(s),
    ensures
        0 <= digits_value(s) < pow10(s.len()),
        digits_value(s) == 0 <==> all_zeros(s),
    decreases s.len(),
{
    if s.len() > 0 {
        let s1 = s.drop_last();
        assert forall|i: int| 0 <= i < s1.len() implies is_digit(#[trigger] s1[i]) by {
            assert(s1[i] == s[i]);
        }
        lemma_digits_bounds(s1);
        assert(is_digit(s[s.len() - 1]));
        assert(s.last() == s[s.len() - 1]);
        if all_zeros(s) {
            assert forall|i: int| 0 <= i < s1.len() implies #[trigger] s1[i] == '0' by {
                assert(s1[i] == s[i]);
            }
        }
        if digits_value(s) == 0 {
            assert forall|i: int| 0 <= i < s.len() implies #[trigger] s[i] == '0' by {
                if i < s.len() - 1 {
                    assert(s1[i] == s[i]);
                }
            }
        }
    }
}

// ---- the value of a digit string with the thousandths point at `p`

/// Below the point: what `floor_scaled` gives when the thousandths point
/// falls at or before the first digit.
proof fn lemma_point_before_digits(d: Seq<char>, p: int, negative: bool)
    requires
        all_digits(d),
        p <= 0,
    ensures
        floor_scaled(if negative { -digits_value(d) } else { digits_value(d) }, p - d.len()) == if negative
            && !all_zeros(d) {
            -1int
        } else {
            0int
        },
{
    let m = digits_value(d);
    lemma_digits_bounds(d);
    let q = pow10((d.len() - p) as nat);
    lemma_pow10_monotone(d.len(), (d.len() - p) as nat);
    if d.len() - p > 0 {
        if negative && m > 0 {
            lemma_fundamental_div_mod_converse(-m, q, -1, q - m);
        } else {
            lemma_fundamental_div_mod_converse(if negative { -m } else { m }, q, 0, if negative { -m } else { m });
        }
    }
}

/// Inside the digits: the digits before the point, and one less when
/// negative with nonzero digits after it.
proof fn lemma_point_within_digits(d: Seq<char>, p: int, negative: bool)
    requires
        all_digits(d),
        0 < p < d.len(),
    ensures
        floor_scaled(if negative { -digits_value(d) } else { digits_value(d) }, p - d.len()) == if negative {
            -digits_value(d.take(p)) - if all_zeros(d.skip(p)) {
                0int
            } else {
                1int
            }
        } else {
            digits_value(d.take(p))
        },
{
    let a = d.take(p);
    let r = d.skip(p);
    assert(d =~= a + r);
    lemma_digits_split(a, r);
    assert forall|i: int| 0 <= i < r.len() implies is_digit(#[trigger] r[i]) by {
        assert(r[i] == d[p + i]);
    }
    lemma_digits_bounds(r);
    let q = pow10(r.len());
    let x = digits_value(a);
    let y = digits_value(r);
    assert(r.len() == d.len() - p);
    if negative {
        if y > 0 {
            assert(-(x * q + y) == (-x - 1) * q + (q - y)) by (nonlinear_arith);
            lemma_fundamental_div_mod_converse(-(x * q + y), q, -x - 1, q - y);
        } else {
            assert(-(x * q + y) == (-x) * q + 0) by (nonlinear_arith)
                requires
                    y == 0,
            ;
            lemma_fundamental_div_mod_converse(-(x * q + y), q, -x, 0);
        }
    } else {
        lemma_fundamental_div_mod_converse(x * q + y, q, x, y);
    }
}

/// Far after the digits, any nonzero digit string is beyond the cap.
proof fn lemma_point_far_after(d: Seq<char>, p: int, negative: bool)
    requires
        all_digits(d),
        p >= d.len() + 16,
    ensures
        clamp_measure(floor_scaled(if negative { -digits_value(d) } else { digits_value(d) }, p - d.len()))
            == if all_zeros(d) {
            0int
        } else if negative {
            -MEASURE_CAP
        } else {
            MEASURE_CAP as int
        },
{
    lemma_digits_bounds(d);
    let m = digits_value(d);
    let k = (p - d.len()) as nat;
    lemma_pow10_monotone(16, k);
    lemma_pow10_16();
    if m > 0 {
        assert(m * pow10(k) >= pow10(k)) by (nonlinear_arith)
            requires
                m >= 1,
                pow10(k) >= 1,
        ;
        assert(-m * pow10(k) == -(m * pow10(k))) by (nonlinear_arith);
    } else {
        assert(m * pow10(k) == 0 && -m * pow10(k) == 0) by (nonlinear_arith)
            requires
                m == 0,
        ;
    }
}

// ---- saturating arithmetic

pub open spec fn saturate(x: int) -> int {
    if x > SATURATED {
        SATURATED as int
    } else {
        x
    }
}

proof fn lemma_saturate_step(x: int, d: int)
    requires
        x >= 0,
        0 <= d <= 9,
    ensures
        saturate(10 * saturate(x) + d) == saturate(10 * x + d),
{
}

proof fn lemma_clamp_saturated(m: int, extra: int, negative: bool)
    requires
        m >= 0,
        0 <= extra <= 1,
    ensures
        clamp_measure(if negative { -(saturate(m) + extra) } else { saturate(m) }) == clamp_measure(
            if negative {
                -(m + extra)
            } else {
                m
            },
        ),
{
}

// ---- executable reading

fn digit_of(c: char) -> (d: i64)
    requires
        is_digit(c),
    ensures
        d == digit_value(c),
        0 <= d <= 9,
{
    (c as u32 - '0' as u32) as i64
}

fn is_digit_char(c: char) -> (r: bool)
    ensures
        r == is_digit(c),
{
    '0' <= c && c <= '9'
}

/// The characters of `s`, with each decimal comma read as a point.
fn normalized_chars(s: &str) -> (cs: Vec<char>)
    ensures
        cs@ == normalize_separator(s@),
{
    let n = s.unicode_len();
    let mut cs: Vec<char> = Vec::new();
    let mut i: usize = 0;
    while i < n
        invariant
            i <= n,
            n == s@.len(),
            cs@ == normalize_separator(s@).take(i as int),
        decreases n - i,
    {
        let c = s.get_char(i);
        cs.push(if c == ',' { '.' } else { c });
        proof {
            assert(cs@ =~= normalize_separator(s@).take(i + 1));
        }
        i = i + 1;
    }
    proof {
        assert(normalize_separator(s@).take(n as int) =~= normalize_separator(s@));
    }
    cs
}

/// Whether the characters of `cs` from `start` on spell `w` in any case.
fn matches_word(cs: &Vec<char>, start: usize, w: &str) -> (r: bool)
    requires
        start <= cs.len(),
    ensures
        r == same_word(cs@.skip(start as int), w@),
{
    let n = w.unicode_len();
    if cs.len() - start != n {
        return false;
    }
    let mut i: usize = 0;
    while i < n
        invariant
            i <= n,
            n == w@.len(),
            cs.len() - start == n,
            forall|j: int| 0 <= j < i ==> same_letter(#[trigger] cs@.skip(start as int)[j], w@[j]),
        decreases n - i,
    {
        let c = cs[start + i];
        let x = w.get_char(i);
        let xu = x as u32;
        let same = c == x || ('a' <= x && x <= 'z' && xu >= 32 && (c as u32) == xu - 32);
        assert(cs@.skip(start as int)[i as int] == c);
        if !same {
            return false;
        }
        assert(same_letter(cs@.skip(start as int)[i as int], w@[i as int]));
        i = i + 1;
    }
    true
}

/// Saturated value of the first `upto` digits of `d`.
fn leading_value(d: &Vec<char>, upto: usize) -> (v: i64)
    requires
        upto <= d.len(),
        all_digits(d@),
    ensures
        v == saturate(digits_value(d@.take(upto as int))),
        0 <= v <= SATURATED,
{
    let mut v: i64 = 0;
    let mut j: usize = 0;
    while j < upto
        invariant
            j <= upto <= d.len(),
            all_digits(d@),
            v == saturate(digits_value(d@.take(j as int))),
            0 <= v <= SATURATED,
        decreases upto - j,
    {
        proof {
            assert(is_digit(d@[j as int]));
            lemma_digits_step(d@, j as int);
            lemma_digits_bounds(d@.take(j as int));
            assert forall|i: int| 0 <= i < j implies is_digit(#[trigger] d@.take(j as int)[i]) by {
                assert(d@.take(j as int)[i] == d@[i]);
            }
            lemma_digits_bounds(d@.take(j as int));
            lemma_saturate_step(digits_value(d@.take(j as int)), digit_value(d@[j as int]));
        }
        let next = v * 10 + digit_of(d[j]);
        v = if next > SATURATED { SATURATED } else { next };
        j = j + 1;
    }
    v
}

/// Whether the digits of `d` from `from` on are all zeros.
fn zeros_from(d: &Vec<char>, from: usize) -> (z: bool)
    requires
        from <= d.len(),
    ensures
        z == all_zeros(d@.skip(from as int)),
{
    let mut j: usize = from;
    while j < d.len()
        invariant
            from <= j <= d.len(),
            forall|i: int| from <= i < j ==> d@[i] == '0',
        decreases d.len() - j,
    {
        if d[j] != '0' {
            assert(d@.skip(from as int)[j - from] == d@[j as int]);
            return false;
        }
        j = j + 1;
    }
    assert forall|i: int| 0 <= i < d@.skip(from as int).len() implies #[trigger] d@.skip(from as int)[i]
        == '0' by {
        assert(d@.skip(from as int)[i] == d@[from + i]);
    }
    true
}

fn clamp_exec(x: i64) -> (r: i64)
    ensures
        r == clamp_measure(x as int),
{
    if x > MEASURE_CAP {
        MEASURE_CAP
    } else if x < -MEASURE_CAP {
        -MEASURE_CAP
    } else {
        x
    }
}

/// The thousandths of the digits `d` with the thousandths point at `p`.
fn scaled_digits(d: &Vec<char>, p: i128, negative: bool) -> (r: i64)
    requires
        all_digits(d@),
    ensures
        r == clamp_measure(floor_scaled(if negative { -digits_value(d@) } else { digits_value(d@) }, p - d.len())),
{
    let len = d.len() as i128;
    if p <= 0 {
        proof {
            lemma_point_before_digits(d@, p as int, negative);
        }
        if negative && !zeros_from(d, 0) {
            proof {
                assert(d@.skip(0) =~= d@);
            }
            -1
        } else {
            proof {
                assert(d@.skip(0) =~= d@);
            }
            0
        }
    } else if p < len {
        let a = leading_value(d, p as usize);
        let zero = zeros_from(d, p as usize);
        proof {
            lemma_point_within_digits(d@, p as int, negative);
            lemma_clamp_saturated(digits_value(d@.take(p as int)), if zero { 0 } else { 1 }, negative);
        }
        if negative {
            clamp_exec(-(a + if zero { 0 } else { 1 }))
        } else {
            clamp_exec(a)
        }
    } else if p >= len + 16 {
        proof {
            lemma_point_far_after(d@, p as int, negative);
            assert(d@.skip(0) =~= d@);
        }
        if zeros_from(d, 0) {
            0
        } else if negative {
            -MEASURE_CAP
        } else {
            MEASURE_CAP
        }
    } else {
        let mut m = leading_value(d, d.len());
        proof {
            assert(d@.take(len as int) =~= d@);
            lemma_digits_bounds(d@);
        }
        let shift = (p - len) as usize;
        let mut j: usize = 0;
        while j < shift
            invariant
                j <= shift,
                shift < 16,
                digits_value(d@) >= 0,
                m == saturate(digits_value(d@) * pow10(j as nat)),
                0 <= m <= SATURATED,
            decreases shift - j,
        {
            proof {
                assert(pow10((j + 1) as nat) == 10 * pow10(j as nat));
                assert(digits_value(d@) * (10 * pow10(j as nat)) == 10 * (digits_value(d@) * pow10(j as nat)))
                    by (nonlinear_arith);
                lemma_pow10_positive(j as nat);
                assert(digits_value(d@) * pow10(j as nat) >= 0) by (nonlinear_arith)
                    requires
                        digits_value(d@) >= 0,
                        pow10(j as nat) >= 1,
                ;
                lemma_saturate_step(digits_value(d@) * pow10(j as nat), 0);
            }
            let next = m * 10;
            m = if next > SATURATED { SATURATED } else { next };
            j = j + 1;
        }
        proof {
            lemma_pow10_positive(shift as nat);
            assert(digits_value(d@) * pow10(shift as nat) >= 0) by (nonlinear_arith)
                requires
                    digits_value(d@) >= 0,
                    pow10(shift as nat) >= 1,
            ;
            assert(-digits_value(d@) * pow10(shift as nat) == -(digits_value(d@) * pow10(shift as nat)))
                by (nonlinear_arith);
            lemma_clamp_saturated(digits_value(d@) * pow10(shift as nat), 0, negative);
        }
        if negative {
            clamp_exec(-m)
        } else {
            clamp_exec(m)
        }
    }
}

pub open spec fn saturate_exponent(x: int) -> int {
    if x > EXPONENT_LIMIT {
        EXPONENT_LIMIT as int
    } else {
        x
    }
}

/// Where the exponent marker and the decimal point of the text from
/// `start` on stand, and the parts they delimit.
fn locate_parts(cs: &Vec<char>, start: usize) -> (r: (usize, usize))
    requires
        start <= cs.len(),
    ensures
        start <= r.1 <= r.0 <= cs.len(),
        whole_digits(cs@.skip(start as int)) == cs@.subrange(start as int, r.1 as int),
        fraction_digits(cs@.skip(start as int)) == if r.1 < r.0 {
            cs@.subrange(r.1 + 1, r.0 as int)
        } else {
            Seq::<char>::empty()
        },
        exponent_text(cs@.skip(start as int)) == cs@.subrange(r.0 as int, cs.len() as int),
{
    let ghost b = cs@.skip(start as int);
    let n = cs.len();
    let mut e: usize = start;
    while e < n && cs[e] != 'e' && cs[e] != 'E'
        invariant
            start <= e <= n,
            n == cs.len(),
            forall|j: int| start <= j < e ==> cs@[j] != 'e' && cs@[j] != 'E',
        decreases n - e,
    {
        e = e + 1;
    }
    proof {
        assert forall|j: int| 0 <= j < e - start implies b[j] != 'e' && b[j] != 'E' by {
            assert(b[j] == cs@[start + j]);
        }
        if e < n {
            assert(b[e - start] == cs@[e as int]);
        }
        lemma_first_of(b, 'e', 'E', e - start);
    }
    let ghost m = b.take(e - start);
    let mut p: usize = start;
    while p < e && cs[p] != '.'
        invariant
            start <= p <= e <= n,
            n == cs.len(),
            forall|j: int| start <= j < p ==> cs@[j] != '.',
        decreases e - p,
    {
        p = p + 1;
    }
    proof {
        assert forall|j: int| 0 <= j < p - start implies m[j] != '.' && m[j] != '.' by {
            assert(m[j] == cs@[start + j]);
        }
        if p < e {
            assert(m[p - start] == cs@[p as int]);
        }
        lemma_first_of(m, '.', '.', p - start);
        assert(mantissa_text(b) == m);
        assert(whole_digits(b) =~= cs@.subrange(start as int, p as int));
        if p < e {
            assert(fraction_digits(b) =~= cs@.subrange(p + 1, e as int));
        } else {
            assert(fraction_digits(b) =~= Seq::<char>::empty());
        }
        assert(exponent_text(b) =~= cs@.subrange(e as int, n as int));
    }
    (e, p)
}

/// The digits of `cs` from `from` up to `to`, if all are digits, after `acc`.
fn push_digits(cs: &Vec<char>, from: usize, to: usize, acc: &mut Vec<char>) -> (ok: bool)
    requires
        from <= to <= cs.len(),
        all_digits(old(acc)@),
    ensures
        ok == all_digits(cs@.subrange(from as int, to as int)),
        ok ==> final(acc)@ == old(acc)@ + cs@.subrange(from as int, to as int),
        ok ==> all_digits(final(acc)@),
{
    let ghost start = acc@;
    let mut j: usize = from;
    while j < to
        invariant
            from <= j <= to <= cs.len(),
            acc@ == start + cs@.subrange(from as int, j as int),
            all_digits(acc@),
            all_digits(cs@.subrange(from as int, j as int)),
        decreases to - j,
    {
        if !is_digit_char(cs[j]) {
            assert(cs@.subrange(from as int, to as int)[j - from] == cs@[j as int]);
            return false;
        }
        acc.push(cs[j]);
        proof {
            assert(acc@ =~= start + cs@.subrange(from as int, j + 1));
            assert(cs@.subrange(from as int, j + 1) =~= cs@.subrange(from as int, j as int).push(cs@[j as int]));
        }
        j = j + 1;
    }
    true
}

/// The exponent after the marker at `e`: whether it is negative, and its
/// magnitude up to the limit; `None` when it is malformed.
fn read_exponent(cs: &Vec<char>, e: usize) -> (r: Option<(bool, i128)>)
    requires
        e < cs.len(),
    ensures
        match r {
            Some((neg, v)) => valid_exponent(cs@.subrange(e as int, cs.len() as int)) && neg == exponent_negative(
                cs@.subrange(e as int, cs.len() as int),
            ) && v == saturate_exponent(digits_value(exponent_digits(cs@.subrange(e as int, cs.len() as int))))
                && 0 <= v <= EXPONENT_LIMIT,
            None => !valid_exponent(cs@.subrange(e as int, cs.len() as int)),
        },
{
    let ghost x = cs@.subrange(e as int, cs.len() as int);
    let n = cs.len();
    let mut q: usize = e + 1;
    let mut neg = false;
    if q < n && (cs[q] == '+' || cs[q] == '-') {
        neg = cs[q] == '-';
        q = q + 1;
    }
    let q0 = q;
    proof {
        if x.len() >= 2 {
            assert(x[1] == cs@[e + 1]);
        }
        assert(exponent_digits(x) =~= cs@.subrange(q0 as int, n as int));
        assert(exponent_negative(x) == neg);
    }
    if q == n {
        return None;
    }
    let mut v: i128 = 0;
    while q < n
        invariant
            e < q0 <= q <= n,
            n == cs.len(),
            x == cs@.subrange(e as int, n as int),
            exponent_digits(x) == cs@.subrange(q0 as int, n as int),
            all_digits(cs@.subrange(q0 as int, q as int)),
            v == saturate_exponent(digits_value(cs@.subrange(q0 as int, q as int))),
            0 <= v <= EXPONENT_LIMIT,
        decreases n - q,
    {
        if !is_digit_char(cs[q]) {
            proof {
                assert(cs@.subrange(q0 as int, n as int)[q - q0] == cs@[q as int]);
            }
            return None;
        }
        proof {
            let ds = cs@.subrange(q0 as int, q as int);
            let ds1 = cs@.subrange(q0 as int, q + 1);
            assert(ds1.drop_last() =~= ds);
            assert(ds1.last() == cs@[q as int]);
            lemma_digits_bounds(ds);
            assert forall|i: int| 0 <= i < ds1.len() implies is_digit(#[trigger] ds1[i]) by {
                if i < ds.len() {
                    assert(ds1[i] == ds[i]);
                }
            }
        }
        let next = v * 10 + digit_of(cs[q]) as i128;
        v = if next > EXPONENT_LIMIT { EXPONENT_LIMIT } else { next };
        q = q + 1;
    }
    Some((neg, v))
}

/// Reads the unsigned decimal number that `cs` holds from `start` on.
fn parse_decimal(cs: &Vec<char>, start: usize, negative: bool) -> (r: Option<i64>)
    requires
        start <= cs.len(),
    ensures
        match r {
            Some(v) => is_decimal(cs@.skip(start as int)) && v == decimal_milli(cs@.skip(start as int), negative),
            None => !is_decimal(cs@.skip(start as int)),
        },
{
    let ghost b = cs@.skip(start as int);
    let n = cs.len();
    let (e, p) = locate_parts(cs, start);
    let mut digits: Vec<char> = Vec::new();
    if !push_digits(cs, start, p, &mut digits) {
        return None;
    }
    let whole_len = digits.len();
    if p < e {
        if !push_digits(cs, p + 1, e, &mut digits) {
            return None;
        }
    }
    proof {
        assert(digits@ =~= whole_digits(b) + fraction_digits(b));
    }
    if digits.len() == 0 {
        return None;
    }
    let ghost x = exponent_text(b);
    let mut exponent: i128 = 0;
    let mut exponent_neg = false;
    if e < n {
        match read_exponent(cs, e) {
            None => {
                return None;
            },
            Some((neg, v)) => {
                exponent_neg = neg;
                exponent = v;
            },
        }
    }
    let ghost d = digits@;
    let ghost true_point = whole_len + exponent_value(x) + 3;
    let point: i128 = whole_len as i128 + (if exponent_neg { -exponent } else { exponent }) + 3;
    proof {
        assert(d.len() == whole_len + fraction_digits(b).len());
        if x.len() > 0 {
            lemma_digits_bounds(exponent_digits(x));
            if digits_value(exponent_digits(x)) > EXPONENT_LIMIT {
                if exponent_neg {
                    lemma_point_before_digits(d, point as int, negative);
                    lemma_point_before_digits(d, true_point, negative);
                } else {
                    lemma_point_far_after(d, point as int, negative);
                    lemma_point_far_after(d, true_point, negative);
                }
            }
        }
    }
    Some(scaled_digits(&digits, point, negative))
}

/// Reads a numeric cell in thousandths; a cell that is no number reads as zero.
pub fn parse_measure(cell: &str) -> (r: i64)
    ensures
        r == measure_milli(cell@),
        -MEASURE_CAP <= r <= MEASURE_CAP,
{
    let cs = normalized_chars(cell);
    let ghost t = cs@;
    let n = cs.len();
    let negative = n > 0 && cs[0] == '-';
    let start: usize = if n > 0 && (cs[0] == '+' || cs[0] == '-') { 1 } else { 0 };
    proof {
        assert(t.skip(0) =~= t);
    }
    if matches_word(&cs, start, "inf") || matches_word(&cs, start, "infinity") {
        return if negative { -MEASURE_CAP } else { MEASURE_CAP };
    }
    if matches_word(&cs, start, "nan") {
        return 0;
    }
    match parse_decimal(&cs, start, negative) {
        Some(v) => v,
        None => 0,
    }
}

} // verus!
