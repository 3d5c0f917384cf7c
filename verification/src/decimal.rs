//! Fixed-point decimal numbers: a value `v: i64` stands for `v / 10^8`.
//!
//! Prices and quantities reach the engine as text (`"45000.50"`, `"0.005"`)
//! and leave it as text (`"45000.5"`). `parse_decimal` reads the text,
//! `format_decimal` writes it back in its shortest form.
use vstd::prelude::*;
use vstd::arithmetic::div_mod::lemma_fundamental_div_mod_converse;

verus! {

/// Number of decimal places carried by a fixed-point value.
pub const SCALE_DIGITS: u64 = 8;

/// `10^SCALE_DIGITS`: the fixed-point value of `1`.
pub const UNIT: u64 = 100_000_000;

/// The character of the decimal digit `d` (`0 <= d < 10`).
pub open spec fn digit_char(d: int) -> char {
    (d + 48) as char
}

/// Whether `c` is one of `'0'..='9'`.
pub open spec fn is_digit(c: char) -> bool {
    '0' <= c && c <= '9'
}

/// The value of the decimal digit `c`.
pub open spec fn digit_value(c: char) -> int {
    c as int - 48
}

/// The shortest decimal text of the natural number `n`.
pub open spec fn nat_text(n: nat) -> Seq<char>
    decreases n,
{
    if n < 10 {
        seq![digit_char(n as int)]
    } else {
        nat_text(n / 10).push(digit_char((n % 10) as int))
    }
}

/// The last `w` decimal digits of `n`, zero-padded on the left.
pub open spec fn padded_text(n: nat, w: nat) -> Seq<char>
    decreases w,
{
    if w == 0 {
        Seq::empty()
    } else {
        padded_text(n / 10, (w - 1) as nat).push(digit_char((n % 10) as int))
    }
}

/// `s` without its trailing `'0'` characters.
pub open spec fn strip_trailing_zeros(s: Seq<char>) -> Seq<char>
    decreases s.len(),
{
    if s.len() > 0 && s.last() == '0' {
        strip_trailing_zeros(s.drop_last())
    } else {
        s
    }
}

/// `10^n`.
pub open spec fn pow10(n: nat) -> nat
    decreases n,
{
    if n == 0 {
        1
    } else {
        10 * pow10((n - 1) as nat)
    }
}

/// Absolute value.
pub open spec fn abs(v: int) -> nat {
    if v < 0 {
        (-v) as nat
    } else {
        v as nat
    }
}

/// The text of the fixed-point value `v`: an optional `-`, the integer part
/// without leading zeros, and, when the fractional part is not zero, a `.`
/// followed by the fractional digits without trailing zeros.
pub open spec fn decimal_text(v: int) -> Seq<char> {
    let m = abs(v);
    let sign = if v < 0 {
        seq!['-']
    } else {
        Seq::<char>::empty()
    };
    let whole = nat_text(m / (UNIT as nat));
    let frac = m % (UNIT as nat);
    if frac == 0 {
        sign + whole
    } else {
        sign + whole + seq!['.'] + strip_trailing_zeros(padded_text(frac, SCALE_DIGITS as nat))
    }
}

/// Appends `c`, a decimal digit, a minus sign or a decimal point, to `s`.
fn push_char(s: &mut String, c: char)
    requires
        is_digit(c) || c == '-' || c == '.',
    ensures
        final(s)@ == old(s)@.push(c),
{
    let ghost before = s@;
    match c {
        '0' => {
            proof {
                reveal_strlit("0");
            }
            s.append("0");
        },
        '1' => {
            proof {
                reveal_strlit("1");
            }
            s.append("1");
        },
        '2' => {
            proof {
                reveal_strlit("2");
            }
            s.append("2");
        },
        '3' => {
            proof {
                reveal_strlit("3");
            }
            s.append("3");
        },
        '4' => {
            proof {
                reveal_strlit("4");
            }
            s.append("4");
        },
        '5' => {
            proof {
                reveal_strlit("5");
            }
            s.append("5");
        },
        '6' => {
            proof {
                reveal_strlit("6");
            }
            s.append("6");
        },
        '7' => {
            proof {
                reveal_strlit("7");
            }
            s.append("7");
        },
        '8' => {
            proof {
                reveal_strlit("8");
            }
            s.append("8");
        },
        '9' => {
            proof {
                reveal_strlit("9");
            }
            s.append("9");
        },
        '-' => {
            proof {
                reveal_strlit("-");
            }
            s.append("-");
        },
        '.' => {
            proof {
                reveal_strlit(".");
            }
            s.append(".");
        },
        _ => {},
    }
    assert(s@ =~= before.push(c));
}

/// The character of the decimal digit `d`.
fn digit_to_char(d: u64) -> (c: char)
    requires
        d < 10,
    ensures
        c == digit_char(d as int),
        is_digit(c),
{
    let b: u8 = 48u8 + d as u8;
    b as char
}

/// Appends `nat_text(n)` to `s`.
fn push_nat_text(s: &mut String, n: u64)
    ensures
        final(s)@ == old(s)@ + nat_text(n as nat),
    decreases n,
{
    if n >= 10 {
        push_nat_text(s, n / 10);
    }
    push_char(s, digit_to_char(n % 10));
    assert(n >= 10 ==> nat_text(n as nat) == nat_text((n / 10) as nat).push(
        digit_char((n % 10) as int),
    ));
}

/// Appends `padded_text(n, w)` to `s`.
fn push_padded_text(s: &mut String, n: u64, w: u64)
    ensures
        final(s)@ == old(s)@ + padded_text(n as nat, w as nat),
    decreases w,
{
    if w > 0 {
        push_padded_text(s, n / 10, w - 1);
        push_char(s, digit_to_char(n % 10));
    }
}

proof fn lemma_strip_padded(n: nat, w: nat)
    requires
        w > 0,
        n % 10 == 0,
    ensures
        strip_trailing_zeros(padded_text(n, w)) == strip_trailing_zeros(
            padded_text(n / 10, (w - 1) as nat),
        ),
{
    let p = padded_text(n, w);
    assert(p.drop_last() =~= padded_text(n / 10, (w - 1) as nat));
    assert(p.last() == '0');
}

proof fn lemma_strip_padded_last_nonzero(n: nat, w: nat)
    requires
        w > 0,
        n % 10 != 0,
    ensures
        strip_trailing_zeros(padded_text(n, w)) == padded_text(n, w),
{
    let p = padded_text(n, w);
    assert(p.last() == digit_char((n % 10) as int));
}

/// The text of the fixed-point value `v` (see `decimal_text`).
pub fn format_decimal(v: i64) -> (s: String)
    ensures
        s@ == decimal_text(v as int),
{
    let m: u64 = if v < 0 {
        ((-(v + 1)) as u64) + 1
    } else {
        v as u64
    };
    assert(m == abs(v as int));
    let mut s = String::new();
    if v < 0 {
        push_char(&mut s, '-');
    }
    push_nat_text(&mut s, m / UNIT);
    let frac = m % UNIT;
    if frac != 0 {
        push_char(&mut s, '.');
        let mut f = frac;
        let mut w: u64 = SCALE_DIGITS;
        assert(pow10(8) == UNIT) by {
            reveal_with_fuel(pow10, 9);
        }
        while f % 10 == 0
            invariant
                0 < f <= frac,
                1 <= w <= SCALE_DIGITS,
                strip_trailing_zeros(padded_text(frac as nat, SCALE_DIGITS as nat))
                    == strip_trailing_zeros(padded_text(f as nat, w as nat)),
                f < pow10(w as nat),
            decreases w,
        {
            proof {
                lemma_strip_padded(f as nat, w as nat);
                assert(pow10(w as nat) == 10 * pow10((w - 1) as nat));
                assert(pow10(0) == 1);
            }
            f = f / 10;
            w = w - 1;
        }
        proof {
            lemma_strip_padded_last_nonzero(f as nat, w as nat);
        }
        push_padded_text(&mut s, f, w);
    }
    s
}

fn chars_of(s: &str) -> (v: Vec<char>)
    ensures
        v@ == s@,
{
    let mut v: Vec<char> = Vec::new();
    for c in it: s.chars()
        invariant
            v@ == it.seq().take(it.index() as int),
    {
        v.push(c);
    }
    v
}


/// Whether every character of `s` is a decimal digit.
pub open spec fn all_digits(s: Seq<char>) -> bool {
    forall|i: int| 0 <= i < s.len() ==> is_digit(#[trigger] s[i])
}

/// The natural number written by the digits `s` (most significant first).
pub open spec fn digits_value(s: Seq<char>) -> nat
    decreases s.len(),
{
    if s.len() == 0 {
        0
    } else {
        digits_value(s.drop_last()) * 10 + (digit_value(s.last()) as nat)
    }
}

/// The position of the first `'.'` in `s`, or `s.len()` when there is none.
pub open spec fn dot_index(s: Seq<char>) -> int
    decreases s.len(),
{
    if s.len() == 0 || s[0] == '.' {
        0
    } else {
        1 + dot_index(s.drop_first())
    }
}

/// Whether `c` marks an exponent.
pub open spec fn is_exp_mark(c: char) -> bool {
    c == 'e' || c == 'E'
}

/// The position of the first exponent mark (`e` or `E`) in `s`, or `s.len()`
/// when there is none.
pub open spec fn exp_index(s: Seq<char>) -> int
    decreases s.len(),
{
    if s.len() == 0 || is_exp_mark(s[0]) {
        0
    } else {
        1 + exp_index(s.drop_first())
    }
}

/// The exponent written by `x` (the text after the exponent mark): an
/// optional sign and at least one digit.
pub open spec fn exponent_value(x: Seq<char>) -> Option<int> {
    let signed = x.len() > 0 && (x[0] == '-' || x[0] == '+');
    let ds = if signed {
        x.drop_first()
    } else {
        x
    };
    if ds.len() > 0 && all_digits(ds) {
        Some(
            if x.len() > 0 && x[0] == '-' {
                -(digits_value(ds) as int)
            } else {
                digits_value(ds) as int
            },
        )
    } else {
        None
    }
}

/// `n / q` rounded to the nearest natural number, halves rounded up.
pub open spec fn round_div(n: nat, q: nat) -> nat {
    n / q + (if 2 * (n % q) >= q {
        1nat
    } else {
        0nat
    })
}

/// `n * 10^t`, rounded to the nearest natural number (halves up) when `t < 0`.
pub open spec fn scaled_magnitude(n: nat, t: int) -> nat {
    if t >= 0 {
        n * pow10(t as nat)
    } else {
        round_div(n, pow10((-t) as nat))
    }
}

/// The fixed-point value written by `s`, if `s` is a decimal number and its
/// value fits in an `i64`.
///
/// A decimal number is an optional sign (`+` or `-`), a mantissa of integer
/// digits, optionally followed by a `.` and fractional digits, with at least
/// one digit in all, and optionally an exponent: `e` or `E`, an optional sign
/// and at least one digit. This is the grammar of finite numbers that Rust's
/// float parser reads. The value is the mantissa times ten to the exponent,
/// rounded to the nearest multiple of `10^-SCALE_DIGITS` (halves away from
/// zero). The float parser also reads `inf`, `infinity` and `nan`; they have
/// no fixed-point value, and neither has a number whose value is beyond the
/// `i64` range once scaled: for both there is no value.
pub open spec fn decimal_value(s: Seq<char>) -> Option<i64> {
    let signed = s.len() > 0 && (s[0] == '-' || s[0] == '+');
    let neg = s.len() > 0 && s[0] == '-';
    let body = if signed {
        s.drop_first()
    } else {
        s
    };
    let ei = exp_index(body);
    let mant = body.take(ei);
    let ex = if ei < body.len() {
        exponent_value(body.skip(ei + 1))
    } else {
        Some(0)
    };
    let d = dot_index(mant);
    let whole = mant.take(d);
    let frac = if d < mant.len() {
        mant.skip(d + 1)
    } else {
        Seq::<char>::empty()
    };
    let e = match ex {
        Some(e) => e,
        None => 0,
    };
    let mag = scaled_magnitude(digits_value(whole + frac), SCALE_DIGITS - frac.len() + e);
    let v: int = if neg {
        -mag
    } else {
        mag as int
    };
    if all_digits(whole) && all_digits(frac) && whole.len() + frac.len() > 0 && ex is Some
        && i64::MIN <= v <= i64::MAX {
        Some(v as i64)
    } else {
        None
    }
}

proof fn lemma_dot_index(s: Seq<char>, i: int)
    requires
        0 <= i <= s.len(),
        forall|j: int| 0 <= j < i ==> (#[trigger] s[j]) != '.',
        i == s.len() || s[i] == '.',
    ensures
        dot_index(s) == i,
    decreases i,
{
    if i > 0 {
        let t = s.drop_first();
        assert forall|j: int| 0 <= j < i - 1 implies (#[trigger] t[j]) != '.' by {
            assert(t[j] == s[j + 1]);
        }
        lemma_dot_index(t, i - 1);
    }
}

proof fn lemma_digits_value_monotone(s: Seq<char>, k: int)
    requires
        all_digits(s),
        0 <= k <= s.len(),
    ensures
        digits_value(s.take(k)) <= digits_value(s),
    decreases s.len(),
{
    if k < s.len() {
        let t = s.drop_last();
        assert(all_digits(t)) by {
            assert forall|i: int| 0 <= i < t.len() implies is_digit(#[trigger] t[i]) by {
                assert(t[i] == s[i]);
            }
        }
        lemma_digits_value_monotone(t, k);
        assert(t.take(k) =~= s.take(k));
        assert(is_digit(s.last()));
    } else {
        assert(s.take(k) =~= s);
    }
}

proof fn lemma_digits_value_step(s: Seq<char>, k: int)
    requires
        0 <= k < s.len(),
    ensures
        digits_value(s.take(k + 1)) == digits_value(s.take(k)) * 10 + (digit_value(s[k]) as nat),
{
    assert(s.take(k + 1).drop_last() =~= s.take(k));
}

/// The digit value of the character `c` (`is_digit(c)`).
fn char_digit(c: char) -> (d: u64)
    requires
        is_digit(c),
    ensures
        d == digit_value(c),
        d < 10,
{
    ((c as u32) - 48) as u64
}

proof fn lemma_exp_index(s: Seq<char>, i: int)
    requires
        0 <= i <= s.len(),
        forall|j: int| 0 <= j < i ==> !is_exp_mark(#[trigger] s[j]),
        i == s.len() || is_exp_mark(s[i]),
    ensures
        exp_index(s) == i,
    decreases i,
{
    if i > 0 {
        let t = s.drop_first();
        assert forall|j: int| 0 <= j < i - 1 implies !is_exp_mark(#[trigger] t[j]) by {
            assert(t[j] == s[j + 1]);
        }
        lemma_exp_index(t, i - 1);
    }
}

proof fn lemma_pow10_positive(n: nat)
    ensures
        pow10(n) >= 1,
    decreases n,
{
    if n > 0 {
        lemma_pow10_positive((n - 1) as nat);
    }
}

proof fn lemma_pow10_mono(a: nat, b: nat)
    requires
        a <= b,
    ensures
        pow10(a) <= pow10(b),
    decreases b,
{
    if a < b {
        lemma_pow10_mono(a, (b - 1) as nat);
        lemma_pow10_positive((b - 1) as nat);
    }
}

proof fn lemma_pow10_add(a: nat, b: nat)
    ensures
        pow10(a + b) == pow10(a) * pow10(b),
    decreases b,
{
    if b > 0 {
        let b1 = (b - 1) as nat;
        lemma_pow10_add(a, b1);
        let x = pow10(a);
        let y = pow10(b1);
        let c = (a + b) as nat;
        assert(pow10(c) == 10 * pow10((c - 1) as nat));
        assert((c - 1) as nat == a + b1);
        assert(pow10(a + b1) == x * y);
        assert(pow10(b) == 10 * y);
        assert(10 * (x * y) == x * (10 * y)) by (nonlinear_arith);
    } else {
        assert(pow10(0) == 1);
        assert(a + b == a);
    }
}

proof fn lemma_digits_concat(a: Seq<char>, b: Seq<char>)
    ensures
        digits_value(a + b) == digits_value(a) * pow10(b.len()) + digits_value(b),
    decreases b.len(),
{
    if b.len() == 0 {
        assert(a + b =~= a);
        assert(pow10(0) == 1);
        assert(digits_value(b) == 0);
    } else {
        let bl = b.drop_last();
        lemma_digits_concat(a, bl);
        assert((a + b).drop_last() =~= a + bl);
        assert((a + b).last() == b.last());
        let x = digits_value(a);
        let p = pow10(bl.len());
        let y = digits_value(bl);
        assert(pow10(b.len()) == 10 * p);
        let d = digit_value(b.last()) as nat;
        assert(digits_value(a + b) == digits_value(a + bl) * 10 + d);
        assert(digits_value(a + bl) == x * p + y);
        assert(digits_value(b) == y * 10 + d);
        assert((x * p + y) * 10 == x * (10 * p) + y * 10) by (nonlinear_arith);
    }
}

proof fn lemma_all_digits_drop_last(s: Seq<char>)
    requires
        all_digits(s),
        s.len() > 0,
    ensures
        all_digits(s.drop_last()),
        is_digit(s.last()),
{
    let t = s.drop_last();
    assert forall|i: int| 0 <= i < t.len() implies is_digit(#[trigger] t[i]) by {
        assert(t[i] == s[i]);
    }
}

proof fn lemma_digits_bound(s: Seq<char>)
    requires
        all_digits(s),
    ensures
        digits_value(s) < pow10(s.len()),
    decreases s.len(),
{
    if s.len() > 0 {
        lemma_all_digits_drop_last(s);
        lemma_digits_bound(s.drop_last());
    }
}

/// Rounding by the first dropped digit: twice the value of a digit string
/// reaches `10^len` exactly when its first digit is at least 5.
proof fn lemma_round_digit(s: Seq<char>)
    requires
        all_digits(s),
        s.len() > 0,
    ensures
        (2 * digits_value(s) >= pow10(s.len())) == (digit_value(s[0]) >= 5),
{
    let rest = s.drop_first();
    let head = seq![s[0]];
    assert(head + rest =~= s);
    lemma_digits_concat(head, rest);
    assert(head.drop_last() =~= Seq::<char>::empty());
    assert(is_digit(s[0]));
    assert(digits_value(head) == digits_value(head.drop_last()) * 10 + (digit_value(head.last()) as nat));
    assert(digits_value(head) == digit_value(s[0]));
    assert(all_digits(rest)) by {
        assert forall|i: int| 0 <= i < rest.len() implies is_digit(#[trigger] rest[i]) by {
            assert(rest[i] == s[i + 1]);
        }
    }
    lemma_digits_bound(rest);
    let p = pow10(rest.len());
    assert(pow10(s.len()) == 10 * p);
    let d = digit_value(s[0]);
    let r = digits_value(rest);
    assert(0 <= d < 10);
    assert((2 * (d * p + r) >= 10 * p) == (d >= 5)) by (nonlinear_arith)
        requires
            0 <= d < 10,
            0 <= r < p,
    ;
}

/// A positive number scaled up by at least `10^19` is past the `i64` range.
proof fn lemma_scaled_too_large(n: nat, t: int)
    requires
        n >= 1,
        t >= 19,
    ensures
        scaled_magnitude(n, t) > 9_223_372_036_854_775_808,
{
    lemma_pow10_mono(19, t as nat);
    assert(pow10(19) == 10_000_000_000_000_000_000) by {
        reveal_with_fuel(pow10, 20);
    }
    let p = pow10(t as nat);
    assert(n * p >= p) by (nonlinear_arith)
        requires
            n >= 1,
            p >= 0,
    ;
}

/// Scaling up never makes a number smaller.
proof fn lemma_scaled_at_least(n: nat, t: int)
    requires
        t >= 0,
    ensures
        scaled_magnitude(n, t) >= n,
{
    lemma_pow10_positive(t as nat);
    let p = pow10(t as nat);
    assert(n * p >= n) by (nonlinear_arith)
        requires
            p >= 1,
    ;
}

/// Scaling down by more places than there are digits gives zero.
proof fn lemma_scaled_tiny(s: Seq<char>, t: int)
    requires
        all_digits(s),
        t < 0,
        -t > s.len(),
    ensures
        scaled_magnitude(digits_value(s), t) == 0,
{
    let k = (-t) as nat;
    lemma_digits_bound(s);
    lemma_pow10_mono((s.len() + 1) as nat, k);
    assert(pow10((s.len() + 1) as nat) == 10 * pow10(s.len()));
    let n = digits_value(s);
    let q = pow10(k);
    assert(n / q == 0 && n % q == n) by {
        vstd::arithmetic::div_mod::lemma_fundamental_div_mod_converse_div(n as int, q as int, 0, n as int);
        vstd::arithmetic::div_mod::lemma_fundamental_div_mod_converse_mod(n as int, q as int, 0, n as int);
    }
}

/// Scaling down by `k` places keeps the first `len - k` digits and rounds by
/// the next one.
proof fn lemma_scaled_round(s: Seq<char>, m: int)
    requires
        all_digits(s),
        0 <= m < s.len(),
    ensures
        scaled_magnitude(digits_value(s), -(s.len() - m)) == digits_value(s.take(m)) + (if digit_value(
            s[m],
        ) >= 5 {
            1int
        } else {
            0int
        }),
{
    let a = s.take(m);
    let b = s.skip(m);
    assert(a + b =~= s);
    lemma_digits_concat(a, b);
    assert(all_digits(b)) by {
        assert forall|i: int| 0 <= i < b.len() implies is_digit(#[trigger] b[i]) by {
            assert(b[i] == s[m + i]);
        }
    }
    lemma_digits_bound(b);
    lemma_round_digit(b);
    assert(b[0] == s[m]);
    let q = pow10(b.len());
    let x = digits_value(a);
    let r = digits_value(b);
    lemma_pow10_positive(b.len());
    vstd::arithmetic::div_mod::lemma_fundamental_div_mod_converse_div((x * q + r) as int, q as int, x as int, r as int);
    vstd::arithmetic::div_mod::lemma_fundamental_div_mod_converse_mod((x * q + r) as int, q as int, x as int, r as int);
}

/// Whether `cs[lo..hi]` are all digits.
fn digits_in(cs: &Vec<char>, lo: usize, hi: usize) -> (r: bool)
    requires
        lo <= hi <= cs.len(),
    ensures
        r == all_digits(cs@.subrange(lo as int, hi as int)),
{
    let mut i = lo;
    while i < hi
        invariant
            lo <= i <= hi <= cs.len(),
            forall|j: int| lo <= j < i ==> is_digit(#[trigger] cs@[j]),
        decreases hi - i,
    {
        let c = cs[i];
        if !('0' <= c && c <= '9') {
            assert(cs@.subrange(lo as int, hi as int)[i - lo] == c);
            return false;
        }
        i = i + 1;
    }
    assert forall|j: int| 0 <= j < hi - lo implies is_digit(
        #[trigger] cs@.subrange(lo as int, hi as int)[j],
    ) by {
        assert(cs@.subrange(lo as int, hi as int)[j] == cs@[lo + j]);
    }
    true
}

/// The value of the digits `cs[lo..hi]`, or some number above `cap` when that
/// value is above `cap`.
fn capped_digits_value(cs: &Vec<char>, lo: usize, hi: usize, cap: u128) -> (r: u128)
    requires
        lo <= hi <= cs.len(),
        all_digits(cs@.subrange(lo as int, hi as int)),
        cap <= 1_267_650_600_228_229_401_496_703_205_376u128,
    ensures
        r <= cap ==> r == digits_value(cs@.subrange(lo as int, hi as int)),
        r > cap ==> digits_value(cs@.subrange(lo as int, hi as int)) > cap,
{
    let ghost s = cs@.subrange(lo as int, hi as int);
    let mut i = lo;
    let mut acc: u128 = 0;
    while i < hi
        invariant
            lo <= i <= hi <= cs.len(),
            s == cs@.subrange(lo as int, hi as int),
            all_digits(s),
            cap <= 1_267_650_600_228_229_401_496_703_205_376u128,
            acc <= cap,
            acc == digits_value(s.take(i - lo)),
        decreases hi - i,
    {
        assert(s[i - lo] == cs@[i as int]);
        let d = char_digit(cs[i]);
        proof {
            lemma_digits_value_step(s, i - lo);
        }
        let next = acc * 10 + (d as u128);
        i = i + 1;
        if next > cap {
            proof {
                lemma_digits_value_monotone(s, i - lo);
            }
            return next;
        }
        acc = next;
    }
    assert(s.take(hi - lo) =~= s);
    acc
}

/// The index of the first exponent mark in `cs[lo..]`.
fn find_exp_mark(cs: &Vec<char>, lo: usize) -> (i: usize)
    requires
        lo <= cs.len(),
    ensures
        lo <= i <= cs.len(),
        i - lo == exp_index(cs@.skip(lo as int)),
{
    let mut i = lo;
    while i < cs.len() && !(cs[i] == 'e' || cs[i] == 'E')
        invariant
            lo <= i <= cs.len(),
            forall|j: int| lo <= j < i ==> !is_exp_mark(#[trigger] cs@[j]),
        decreases cs.len() - i,
    {
        i = i + 1;
    }
    proof {
        let t = cs@.skip(lo as int);
        assert forall|j: int| 0 <= j < i - lo implies !is_exp_mark(#[trigger] t[j]) by {
            assert(t[j] == cs@[lo + j]);
        }
        lemma_exp_index(t, i - lo);
    }
    i
}

/// The index of the first `.` in `cs[lo..hi]`.
fn find_dot(cs: &Vec<char>, lo: usize, hi: usize) -> (i: usize)
    requires
        lo <= hi <= cs.len(),
    ensures
        lo <= i <= hi,
        i - lo == dot_index(cs@.subrange(lo as int, hi as int)),
{
    let mut i = lo;
    while i < hi && cs[i] != '.'
        invariant
            lo <= i <= hi <= cs.len(),
            forall|j: int| lo <= j < i ==> (#[trigger] cs@[j]) != '.',
        decreases hi - i,
    {
        i = i + 1;
    }
    proof {
        let t = cs@.subrange(lo as int, hi as int);
        assert forall|j: int| 0 <= j < i - lo implies (#[trigger] t[j]) != '.' by {
            assert(t[j] == cs@[lo + j]);
        }
        lemma_dot_index(t, i - lo);
    }
    i
}

/// Exponents whose magnitude is above this bound are not carried exactly.
const EXP_CAP: u128 = 73_786_976_294_838_206_464;

/// Reads the exponent `cs[lo..]`: its sign, and its magnitude (exactly when at
/// most `EXP_CAP`, else some number above `EXP_CAP`).
fn parse_exponent(cs: &Vec<char>, lo: usize) -> (r: Option<(bool, u128)>)
    requires
        lo <= cs.len(),
    ensures
        r is None <==> exponent_value(cs@.skip(lo as int)) is None,
        r matches Some((neg, m)) ==> match exponent_value(cs@.skip(lo as int)) {
            Some(e) => {
                &&& neg ==> e <= 0
                &&& !neg ==> e >= 0
                &&& m <= EXP_CAP ==> (if neg { -e } else { e }) == m
                &&& m > EXP_CAP ==> (if neg { -e } else { e }) > EXP_CAP
            },
            None => false,
        },
{
    let n = cs.len();
    let ghost x = cs@.skip(lo as int);
    let mut i = lo;
    let mut neg = false;
    if lo < n && (cs[lo] == '-' || cs[lo] == '+') {
        neg = cs[lo] == '-';
        i = lo + 1;
    }
    let ghost ds = if x.len() > 0 && (x[0] == '-' || x[0] == '+') {
        x.drop_first()
    } else {
        x
    };
    assert(ds =~= cs@.subrange(i as int, n as int));
    if i == n {
        return None;
    }
    if !digits_in(cs, i, n) {
        return None;
    }
    let m = capped_digits_value(cs, i, n, EXP_CAP);
    Some((neg, m))
}

/// `10^t` for `t <= 19`.
fn pow10_exec(t: u64) -> (r: u128)
    requires
        t <= 19,
    ensures
        r == pow10(t as nat),
{
    let mut r: u128 = 1;
    let mut i: u64 = 0;
    while i < t
        invariant
            i <= t <= 19,
            r == pow10(i as nat),
        decreases t - i,
    {
        proof {
            lemma_pow10_mono((i + 1) as nat, 19);
            assert(pow10(19) == 10_000_000_000_000_000_000) by {
                reveal_with_fuel(pow10, 20);
            }
        }
        r = r * 10;
        i = i + 1;
    }
    r
}

/// Reads the decimal number `s` as a fixed-point value (see `decimal_value`).
#[verifier::spinoff_prover]
#[verifier::rlimit(100)]
pub fn parse_decimal(s: &str) -> (r: Option<i64>)
    ensures
        r == decimal_value(s@),
{
    let cs = chars_of(s);
    let n = cs.len();
    let ghost sq = s@;
    let mut start: usize = 0;
    let mut neg = false;
    if n > 0 && (cs[0] == '-' || cs[0] == '+') {
        neg = cs[0] == '-';
        start = 1;
    }
    let ghost signed = sq.len() > 0 && (sq[0] == '-' || sq[0] == '+');
    let ghost body = if signed {
        sq.drop_first()
    } else {
        sq
    };
    assert(body =~= sq.skip(start as int));
    let ei = find_exp_mark(&cs, start);
    let ghost mant = body.take(ei - start);
    assert(mant =~= sq.subrange(start as int, ei as int));
    let di = find_dot(&cs, start, ei);
    let fstart = if di < ei {
        di + 1
    } else {
        ei
    };
    let ghost whole = mant.take(di - start);
    let ghost frac = if di < ei {
        mant.skip(di - start + 1)
    } else {
        Seq::<char>::empty()
    };
    assert(whole =~= sq.subrange(start as int, di as int));
    assert(frac =~= sq.subrange(fstart as int, ei as int));
    let ghost ex = if ei < n {
        exponent_value(body.skip(ei - start + 1))
    } else {
        Some(0int)
    };
    if !digits_in(&cs, start, di) {
        return None;
    }
    if !digits_in(&cs, fstart, ei) {
        return None;
    }
    if di == start && fstart == ei {
        return None;
    }
    let mut eneg = false;
    let mut emag: u128 = 0;
    if ei < n {
        assert(body.skip(ei - start + 1) =~= sq.skip(ei + 1));
        match parse_exponent(&cs, ei + 1) {
            Some((ng, m)) => {
                eneg = ng;
                emag = m;
            },
            None => {
                return None;
            },
        }
    }
    let ghost e: int = match ex {
        Some(e) => e,
        None => 0,
    };
    // the mantissa digits
    let mut dg: Vec<char> = Vec::new();
    let mut i = start;
    while i < di
        invariant
            start <= i <= di <= ei <= n,
            n == cs@.len(),
            dg@ == sq.subrange(start as int, i as int),
            cs@ == sq,
        decreases di - i,
    {
        dg.push(cs[i]);
        assert(dg@ =~= sq.subrange(start as int, i + 1));
        i = i + 1;
    }
    let mut j = fstart;
    while j < ei
        invariant
            fstart <= j <= ei <= n,
            n == cs@.len(),
            dg@ == whole + sq.subrange(fstart as int, j as int),
            whole == sq.subrange(start as int, di as int),
            cs@ == sq,
        decreases ei - j,
    {
        dg.push(cs[j]);
        assert(dg@ =~= whole + sq.subrange(fstart as int, j + 1));
        j = j + 1;
    }
    assert(dg@ =~= whole + frac);
    let len = dg.len();
    let flen = ei - fstart;
    assert(all_digits(dg@)) by {
        assert forall|k: int| 0 <= k < dg@.len() implies is_digit(#[trigger] dg@[k]) by {
            if k < whole.len() {
                assert(dg@[k] == whole[k]);
            } else {
                assert(dg@[k] == frac[k - whole.len()]);
            }
        }
    }
    assert(dg@.subrange(0, len as int) =~= dg@);
    let ghost nv_spec = digits_value(dg@);
    let ghost t: int = SCALE_DIGITS - flen + e;
    let big = emag > EXP_CAP;
    let tt: i128 = if big {
        0
    } else if eneg {
        8 - (flen as i128) - (emag as i128)
    } else {
        8 - (flen as i128) + (emag as i128)
    };
    assert(!big ==> tt == t);
    let up = if big {
        !eneg
    } else {
        tt >= 0
    };
    let mag: u128;
    if up {
        let nv = capped_digits_value(&dg, 0, len, 9_223_372_036_854_775_808u128);
        if nv == 0 {
            assert(0 * pow10(t as nat) == 0);
            mag = 0;
        } else if big || tt >= 19 {
            proof {
                lemma_scaled_too_large(nv_spec, t);
            }
            return None;
        } else if nv > 9_223_372_036_854_775_808u128 {
            proof {
                lemma_scaled_at_least(nv_spec, t);
            }
            return None;
        } else {
            let p = pow10_exec(tt as u64);
            proof {
                lemma_pow10_mono(t as nat, 19);
                assert(pow10(19) == 10_000_000_000_000_000_000) by {
                    reveal_with_fuel(pow10, 20);
                }
                assert(nv * p <= 9_223_372_036_854_775_808u128 * 10_000_000_000_000_000_000u128)
                    by (nonlinear_arith)
                    requires
                        nv <= 9_223_372_036_854_775_808u128,
                        p <= 10_000_000_000_000_000_000u128,
                ;
            }
            mag = nv * p;
        }
    } else {
        if big || -tt > len as i128 {
            proof {
                lemma_scaled_tiny(dg@, t);
            }
            mag = 0;
        } else {
            let m = ((len as i128) + tt) as usize;
            proof {
                lemma_scaled_round(dg@, m as int);
                assert(dg@.subrange(0, m as int) =~= dg@.take(m as int));
                assert(all_digits(dg@.subrange(0, m as int))) by {
                    assert forall|k: int| 0 <= k < m implies is_digit(
                        #[trigger] dg@.subrange(0, m as int)[k],
                    ) by {
                        assert(dg@.subrange(0, m as int)[k] == dg@[k]);
                    }
                }
            }
            let q = capped_digits_value(&dg, 0, m, 9_223_372_036_854_775_808u128);
            if q > 9_223_372_036_854_775_808u128 {
                return None;
            }
            let c = dg[m];
            let round: u128 = if c >= '5' {
                1
            } else {
                0
            };
            mag = q + round;
        }
    }
    assert(mag == scaled_magnitude(nv_spec, t));
    if neg {
        if mag > 9_223_372_036_854_775_808u128 {
            None
        } else if mag == 9_223_372_036_854_775_808u128 {
            Some(i64::MIN)
        } else {
            Some(-(mag as i64))
        }
    } else {
        if mag > 9_223_372_036_854_775_807u128 {
            None
        } else {
            Some(mag as i64)
        }
    }
}

proof fn lemma_digit_char(d: int)
    requires
        0 <= d < 10,
    ensures
        digit_value(digit_char(d)) == d,
        is_digit(digit_char(d)),
{
}

proof fn lemma_nat_text(n: nat)
    ensures
        nat_text(n).len() >= 1,
        all_digits(nat_text(n)),
        digits_value(nat_text(n)) == n,
    decreases n,
{
    let t = nat_text(n);
    lemma_digit_char((n % 10) as int);
    if n >= 10 {
        lemma_nat_text(n / 10);
        assert(t.drop_last() =~= nat_text(n / 10));
        assert forall|i: int| 0 <= i < t.len() implies is_digit(#[trigger] t[i]) by {
            if i < t.len() - 1 {
                assert(t[i] == nat_text(n / 10)[i]);
            }
        }
    } else {
        assert(t.drop_last() =~= Seq::<char>::empty());
    }
    assert(t.last() == digit_char((n % 10) as int));
    assert(digits_value(t) == digits_value(t.drop_last()) * 10 + (digit_value(t.last()) as nat));
    assert((n / 10) * 10 + n % 10 == n);
}

proof fn lemma_padded_text(f: nat, w: nat)
    requires
        f < pow10(w),
    ensures
        padded_text(f, w).len() == w,
        all_digits(padded_text(f, w)),
        digits_value(padded_text(f, w)) == f,
    decreases w,
{
    let t = padded_text(f, w);
    lemma_digit_char((f % 10) as int);
    if w > 0 {
        assert(pow10(w) == 10 * pow10((w - 1) as nat));
        lemma_padded_text(f / 10, (w - 1) as nat);
        assert(t.drop_last() =~= padded_text(f / 10, (w - 1) as nat));
        assert forall|i: int| 0 <= i < t.len() implies is_digit(#[trigger] t[i]) by {
            if i < t.len() - 1 {
                assert(t[i] == padded_text(f / 10, (w - 1) as nat)[i]);
            }
        }
    } else {
        assert(f == 0);
    }
}

/// Stripping the trailing zeros of a zero-padded number leaves a shorter
/// zero-padded number `g` with `f == g * 10^(w - w2)`.
proof fn lemma_strip_padded_text(f: nat, w: nat) -> (r: (nat, nat))
    requires
        0 < f < pow10(w),
    ensures
        strip_trailing_zeros(padded_text(f, w)) == padded_text(r.0, r.1),
        r.1 <= w,
        r.0 < pow10(r.1),
        r.0 * pow10((w - r.1) as nat) == f,
    decreases w,
{
    assert(pow10(0) == 1);
    if w == 0 {
        assert(false);
        (0, 0)
    } else {
        assert(pow10(w) == 10 * pow10((w - 1) as nat));
        if f % 10 == 0 {
            lemma_strip_padded(f, w);
            let r = lemma_strip_padded_text(f / 10, (w - 1) as nat);
            let e = (w - 1 - r.1) as nat;
            assert(pow10((w - r.1) as nat) == 10 * pow10(e));
            assert(r.0 * (10 * pow10(e)) == (r.0 * pow10(e)) * 10) by (nonlinear_arith);
            r
        } else {
            lemma_strip_padded_last_nonzero(f, w);
            assert(f * pow10(0) == f);
            (f, w)
        }
    }
}

/// Writing a fixed-point value and reading the text back gives the value.
#[verifier::spinoff_prover]
#[verifier::rlimit(60)]
pub proof fn lemma_decimal_round_trip(v: i64)
    ensures
        decimal_value(decimal_text(v as int)) == Some(v),
{
    let m = abs(v as int);
    let ip = m / (UNIT as nat);
    let fp = m % (UNIT as nat);
    let sign = if v < 0 {
        seq!['-']
    } else {
        Seq::<char>::empty()
    };
    let whole = nat_text(ip);
    lemma_nat_text(ip);
    assert(pow10(8) == UNIT) by {
        reveal_with_fuel(pow10, 9);
    }
    let r: (nat, nat) = if fp == 0 {
        (0, 0)
    } else {
        lemma_strip_padded_text(fp, 8)
    };
    if fp != 0 {
        lemma_padded_text(r.0, r.1);
    }
    let frac: Seq<char> = if fp == 0 {
        Seq::empty()
    } else {
        padded_text(r.0, r.1)
    };
    let text = decimal_text(v as int);
    let body = if fp == 0 {
        whole
    } else {
        whole + seq!['.'] + frac
    };
    assert(text =~= sign + body);
    assert(is_digit(whole[0]));
    assert(body[0] == whole[0]);
    let signed = text.len() > 0 && (text[0] == '-' || text[0] == '+');
    assert(signed == (v < 0));
    if v < 0 {
        assert(text.drop_first() =~= body);
    }
    // no exponent mark
    assert forall|j: int| 0 <= j < body.len() implies !is_exp_mark(#[trigger] body[j]) by {
        if j < whole.len() {
            assert(body[j] == whole[j]);
            assert(is_digit(whole[j]));
        } else if j > whole.len() {
            assert(body[j] == frac[j - whole.len() - 1]);
            assert(is_digit(frac[j - whole.len() - 1]));
        }
    }
    lemma_exp_index(body, body.len() as int);
    assert(body.take(body.len() as int) =~= body);
    assert forall|j: int| 0 <= j < whole.len() implies (#[trigger] body[j]) != '.' by {
        assert(body[j] == whole[j]);
        assert(is_digit(whole[j]));
    }
    lemma_dot_index(body, whole.len() as int);
    let d = whole.len() as int;
    assert(body.take(d) =~= whole);
    let fr = if d < body.len() {
        body.skip(d + 1)
    } else {
        Seq::<char>::empty()
    };
    assert(fr =~= frac);
    let flen = frac.len();
    assert(flen <= 8);
    lemma_digits_concat(whole, frac);
    let g = digits_value(frac);
    if fp == 0 {
        assert(g == 0);
    }
    assert(g * pow10((8 - flen) as nat) == fp);
    lemma_pow10_add(flen, (8 - flen) as nat);
    let pf = pow10(flen);
    let pr = pow10((8 - flen) as nat);
    assert(pf * pr == UNIT);
    assert((ip * pf + g) * pr == ip * (pf * pr) + g * pr) by (nonlinear_arith);
    assert(scaled_magnitude(digits_value(whole + frac), SCALE_DIGITS - flen + 0) == m);
    assert(ip * (UNIT as nat) + fp == m);
}

/// The parts `decimal_value` finds in an unsigned text made of the digits `w`,
/// and, when `dotted`, a `.` and the digits `f`.
proof fn lemma_plain_parts(w: Seq<char>, f: Seq<char>, dotted: bool)
    requires
        all_digits(w),
        all_digits(f),
        !dotted ==> f.len() == 0,
    ensures
        ({
            let body = if dotted {
                w + seq!['.'] + f
            } else {
                w
            };
            let mant = body.take(exp_index(body));
            let d = dot_index(mant);
            &&& exp_index(body) == body.len()
            &&& mant == body
            &&& mant.take(d) == w
            &&& (if d < mant.len() {
                mant.skip(d + 1)
            } else {
                Seq::<char>::empty()
            }) == f
        }),
{
    let body = if dotted {
        w + seq!['.'] + f
    } else {
        w
    };
    assert forall|j: int| 0 <= j < body.len() implies !is_exp_mark(#[trigger] body[j]) by {
        if j < w.len() {
            assert(body[j] == w[j]);
        } else if j > w.len() {
            assert(body[j] == f[j - w.len() - 1]);
        }
    }
    lemma_exp_index(body, body.len() as int);
    let mant = body.take(exp_index(body));
    assert(mant =~= body);
    assert forall|j: int| 0 <= j < w.len() implies (#[trigger] mant[j]) != '.' by {
        assert(mant[j] == w[j]);
    }
    lemma_dot_index(mant, w.len() as int);
    assert(mant.take(w.len() as int) =~= w);
    if dotted {
        assert(mant.skip(w.len() + 1int) =~= f);
    }
}

/// The value of a plain decimal text, stated by arithmetic: digits `w`, a `.`
/// and at most eight fractional digits `f` read as `w + f / 10^|f|` in units
/// of `10^-8` (so fractional zeros at the end change nothing, and `w.` followed
/// by zeros reads as `w`); with a leading `-` as its negation; digits alone read
/// as their number. A text whose value does not fit in an `i64` has none.
#[verifier::rlimit(40)]
pub proof fn lemma_plain_decimal_value(w: Seq<char>, f: Seq<char>)
    requires
        all_digits(w),
        all_digits(f),
        w.len() + f.len() > 0,
        f.len() <= 8,
    ensures
        ({
            let v = digits_value(w) * 100_000_000 + digits_value(f) * pow10((8 - f.len()) as nat);
            &&& decimal_value(w + seq!['.'] + f) == if v <= i64::MAX {
                Some(v as i64)
            } else {
                None
            }
            &&& decimal_value(seq!['-'] + (w + seq!['.'] + f)) == if v <= 9_223_372_036_854_775_808 {
                Some((-v) as i64)
            } else {
                None
            }
        }),
        w.len() > 0 ==> decimal_value(w) == if digits_value(w) * 100_000_000 <= i64::MAX {
            Some((digits_value(w) * 100_000_000) as i64)
        } else {
            None
        },
        w.len() > 0 ==> decimal_value(seq!['-'] + w) == if digits_value(w) * 100_000_000
            <= 9_223_372_036_854_775_808 {
            Some((-(digits_value(w) * 100_000_000)) as i64)
        } else {
            None
        },
{
    assert(pow10(8) == 100_000_000) by {
        reveal_with_fuel(pow10, 9);
    }
    lemma_digits_concat(w, f);
    lemma_pow10_add(f.len(), (8 - f.len()) as nat);
    assert((f.len() + (8 - f.len())) as nat == 8nat);
    let pf = pow10(f.len());
    let pr = pow10((8 - f.len()) as nat);
    assert((digits_value(w) * pf + digits_value(f)) * pr == digits_value(w) * (pf * pr) + digits_value(f)
        * pr) by (nonlinear_arith);
    let v = digits_value(w) * 100_000_000 + digits_value(f) * pr;
    assert(scaled_magnitude(digits_value(w + f), 8 - f.len() + 0) == v);
    let body = w + seq!['.'] + f;
    lemma_plain_parts(w, f, true);
    assert(body[0] != '-' && body[0] != '+') by {
        if w.len() > 0 {
            assert(body[0] == w[0]);
        }
    }
    let neg = seq!['-'] + body;
    assert(neg.drop_first() =~= body);
    if w.len() > 0 {
        lemma_plain_parts(w, Seq::<char>::empty(), false);
        assert(w + Seq::<char>::empty() =~= w);
        assert(digits_value(Seq::<char>::empty()) == 0);
        assert(scaled_magnitude(digits_value(w), 8 - 0 + 0) == digits_value(w) * 100_000_000);
        assert(w[0] != '-' && w[0] != '+');
        let negw = seq!['-'] + w;
        assert(negw.drop_first() =~= w);
    }
}

proof fn lemma_dot_index_push(x: Seq<char>, c: char)
    requires
        exists|i: int| 0 <= i < x.len() && x[i] == '.',
    ensures
        0 <= dot_index(x) < x.len(),
        x[dot_index(x)] == '.',
        dot_index(x.push(c)) == dot_index(x),
    decreases x.len(),
{
    let p = x.push(c);
    if x[0] != '.' {
        let t = x.drop_first();
        let i = choose|i: int| 0 <= i < x.len() && x[i] == '.';
        assert(i >= 1);
        assert(0 <= i - 1 < t.len() && t[i - 1] == '.');
        lemma_dot_index_push(t, c);
        let k = dot_index(t);
        assert(0 <= k < t.len());
        assert(dot_index(x) == 1 + k);
        assert(t[k] == x[k + 1]);
        assert(p.drop_first() =~= t.push(c));
        assert(p[0] == x[0]);
    } else {
        assert(p[0] == '.');
    }
}

/// Scaling ten times a number one place less gives the same magnitude.
proof fn lemma_scaled_shift(n: nat, t: int)
    ensures
        scaled_magnitude(n * 10, t - 1) == scaled_magnitude(n, t),
{
    if t >= 1 {
        let p = pow10((t - 1) as nat);
        assert(pow10(t as nat) == 10 * p);
        assert(n * 10 * p == n * (10 * p)) by (nonlinear_arith);
        assert(scaled_magnitude(n * 10, t - 1) == n * 10 * p);
        assert(scaled_magnitude(n, t) == n * (10 * p));
    } else if t == 0 {
        assert(pow10(1) == 10) by {
            reveal_with_fuel(pow10, 2);
        }
        assert(pow10(0) == 1);
        lemma_fundamental_div_mod_converse((n * 10) as int, 10, n as int, 0);
        assert(scaled_magnitude(n * 10, t - 1) == round_div(n * 10, 10));
        assert(scaled_magnitude(n, t) == n);
    } else {
        let k = (-t) as nat;
        let pk = pow10(k);
        lemma_pow10_positive(k);
        assert(pow10((-(t - 1)) as nat) == 10 * pk) by {
            assert((-(t - 1)) as nat == (k + 1) as nat);
        }
        let q = n / pk;
        let r = n % pk;
        assert(n == q * pk + r) by (nonlinear_arith)
            requires
                q == n / pk,
                r == n % pk,
                pk > 0,
        ;
        assert(n * 10 == q * (10 * pk) + 10 * r) by (nonlinear_arith)
            requires
                n == q * pk + r,
        ;
        lemma_fundamental_div_mod_converse((n * 10) as int, (10 * pk) as int, q as int, (10 * r) as int);
        assert(scaled_magnitude(n * 10, t - 1) == round_div(n * 10, 10 * pk));
        assert(scaled_magnitude(n, t) == round_div(n, pk));
    }
}

/// Zeros at the end of a fraction change nothing: a text with a `.` and
/// without an exponent reads the same with a `0` appended, whether or not it
/// is a number.
#[verifier::rlimit(60)]
pub proof fn lemma_trailing_fraction_zero(s: Seq<char>)
    requires
        exists|i: int| 0 <= i < s.len() && s[i] == '.',
        exists|i: int| 0 <= i < s.len() && is_digit(s[i]),
        forall|i: int| 0 <= i < s.len() ==> !is_exp_mark(#[trigger] s[i]),
    ensures
        decimal_value(s.push('0')) == decimal_value(s),
{
    let z = s.push('0');
    let signed = s[0] == '-' || s[0] == '+';
    let body = if signed {
        s.drop_first()
    } else {
        s
    };
    let bz = if signed {
        z.drop_first()
    } else {
        z
    };
    assert(z[0] == s[0]);
    assert(bz =~= body.push('0'));
    assert forall|j: int| 0 <= j < body.len() implies !is_exp_mark(#[trigger] body[j]) by {
        if signed {
            assert(body[j] == s[j + 1]);
        }
    }
    assert forall|j: int| 0 <= j < bz.len() implies !is_exp_mark(#[trigger] bz[j]) by {
        if j < body.len() {
            assert(bz[j] == body[j]);
        }
    }
    lemma_exp_index(body, body.len() as int);
    lemma_exp_index(bz, bz.len() as int);
    assert(body.take(body.len() as int) =~= body);
    assert(bz.take(bz.len() as int) =~= bz);
    let i = choose|i: int| 0 <= i < s.len() && s[i] == '.';
    if signed {
        assert(body[i - 1] == '.');
    } else {
        assert(body[i] == '.');
    }
    lemma_dot_index_push(body, '0');
    let d = dot_index(body);
    let whole = body.take(d);
    let frac = body.skip(d + 1);
    assert(0 <= d < body.len());
    assert(bz.len() == body.len() + 1);
    assert(forall|j: int| 0 <= j < body.len() ==> bz[j] == body[j]);
    assert(bz[body.len() as int] == '0');
    assert(whole.len() == d);
    assert(frac.len() == body.len() - d - 1);
    assert(bz.take(d) =~= whole);
    assert(bz.skip(d + 1) =~= frac.push('0'));
    assert((whole + frac.push('0')) =~= (whole + frac).push('0'));
    let wf = (whole + frac).push('0');
    assert(wf.drop_last() =~= whole + frac);
    assert(digits_value(wf) == digits_value(whole + frac) * 10);
    lemma_scaled_shift(digits_value(whole + frac), SCALE_DIGITS - frac.len() + 0);
    assert(SCALE_DIGITS - frac.push('0').len() + 0 == SCALE_DIGITS - frac.len() + 0 - 1);
    assert(all_digits(frac.push('0')) == all_digits(frac)) by {
        if all_digits(frac) {
            assert forall|j: int| 0 <= j < frac.push('0').len() implies is_digit(
                #[trigger] frac.push('0')[j],
            ) by {
                if j < frac.len() {
                    assert(frac.push('0')[j] == frac[j]);
                }
            }
        }
        if all_digits(frac.push('0')) {
            assert forall|j: int| 0 <= j < frac.len() implies is_digit(#[trigger] frac[j]) by {
                assert(frac.push('0')[j] == frac[j]);
            }
        }
    }
    if all_digits(whole) && all_digits(frac) && whole.len() + frac.len() == 0 {
        assert(body.len() == 1);
        let k = choose|k: int| 0 <= k < s.len() && is_digit(s[k]);
        if signed {
            assert(s[k] == body[k - 1]);
        }
        assert(false);
    }
}

} // verus!
