//! Sheet and card pixel geometry, derived once per render session from a
//! target resolution and a card aspect ratio.
//!
//! Ratios are exact rationals, so the three-way case split against the base
//! aspect ratio and the floor-rounding of the derived sheet dimension are
//! reproduced deterministically.
use vstd::prelude::*;
use vstd::string::StrSliceExecFns;

use crate::{COLUMNS, ROWS};

verus! {

/// Largest mantissa a parsed ratio component may have (nine digits).
pub const MANT_LIMIT: u64 = 999_999_999;

/// An exact positive aspect ratio `num / den` (width over height).
///
/// The base ratio the sheet layout is tuned for is 25/36, that is five units
/// of width for 7.2 of height.
#[derive(Clone, Copy, Debug)]
pub struct AspectRatio {
    pub num: u64,
    pub den: u64,
}

/// An exact non-negative fraction; the denominator is never zero.
#[derive(Clone, Copy, Debug)]
pub struct Frac {
    pub num: u128,
    pub den: u128,
}

impl Frac {
    pub open spec fn wf(self) -> bool {
        self.den >= 1
    }
}

impl AspectRatio {
    /// Both components positive and small enough that cross products fit in
    /// the machine arithmetic used on them.
    pub open spec fn wf(self) -> bool {
        1 <= self.num <= 1_000_000_000_000_000_000 && 1 <= self.den <= 1_000_000_000_000_000_000
    }

    /// Whether this ratio is strictly wider than the base 25/36 ratio.
    pub open spec fn spec_wider_than_base(self) -> bool {
        self.num * 36 > self.den * 25
    }

    /// Whether this ratio equals the base 25/36 ratio exactly.
    pub open spec fn spec_is_base(self) -> bool {
        self.num * 36 == self.den * 25
    }

    /// The base 5/7.2 card ratio.
    pub fn base() -> (r: AspectRatio)
        ensures
            r.num == 25 && r.den == 36,
    {
        AspectRatio { num: 25, den: 36 }
    }

    /// A ratio from positive integer width and height parts.
    pub fn new(width: u64, height: u64) -> (r: AspectRatio)
        requires
            1 <= width <= 1_000_000_000_000_000_000,
            1 <= height <= 1_000_000_000_000_000_000,
        ensures
            r.num == width && r.den == height,
            r.wf(),
    {
        AspectRatio { num: width, den: height }
    }

    /// Wider than tall.
    pub fn is_landscape(&self) -> (r: bool)
        ensures
            r == (self.num > self.den),
    {
        self.num > self.den
    }

    /// At most as wide as tall.
    pub fn is_portrait(&self) -> (r: bool)
        ensures
            r == (self.num <= self.den),
    {
        self.num <= self.den
    }

    /// Exactly square.
    pub fn is_square(&self) -> (r: bool)
        ensures
            r == (self.num == self.den),
    {
        self.num == self.den
    }

    /// Strictly wider than `other`.
    pub fn is_wider_than(&self, other: AspectRatio) -> (r: bool)
        ensures
            r == (self.num * other.den > other.num * self.den),
    {
        proof {
            lemma_u64_prod_fits(self.num, other.den);
            lemma_u64_prod_fits(other.num, self.den);
        }
        (self.num as u128) * (other.den as u128) > (other.num as u128) * (self.den as u128)
    }

    /// Strictly taller than `other`.
    pub fn is_taller_than(&self, other: AspectRatio) -> (r: bool)
        ensures
            r == (self.num * other.den < other.num * self.den),
    {
        proof {
            lemma_u64_prod_fits(self.num, other.den);
            lemma_u64_prod_fits(other.num, self.den);
        }
        (self.num as u128) * (other.den as u128) < (other.num as u128) * (self.den as u128)
    }
}

proof fn lemma_u64_prod_fits(a: u64, b: u64)
    ensures
        a * b <= u128::MAX,
{
    assert(a * b <= u64::MAX * u64::MAX) by (nonlinear_arith)
        requires
            a <= u64::MAX,
            b <= u64::MAX,
    ;
    assert(u64::MAX * u64::MAX <= u128::MAX);
}

/// Ten to the `e`-th.
pub open spec fn pow10(e: nat) -> nat
    decreases e,
{
    if e == 0 {
        1
    } else {
        10 * pow10((e - 1) as nat)
    }
}

pub fn pow10_exec(e: u32) -> (r: u64)
    requires
        e <= 9,
    ensures
        r == pow10(e as nat),
        1 <= r <= 1_000_000_000,
{
    let mut p: u64 = 1;
    let mut k: u32 = 0;
    proof {
        assert(pow10(9) == 1_000_000_000) by {
            reveal_with_fuel(pow10, 11);
        }
    }
    while k < e
        invariant
            0 <= k <= e <= 9,
            p == pow10(k as nat),
            pow10(9) == 1_000_000_000,
        decreases e - k,
    {
        proof {
            lemma_pow10_mono(k as nat + 1, 9);
        }
        p = p * 10;
        k = k + 1;
    }
    proof {
        lemma_pow10_mono(e as nat, 9);
        assert(pow10(0) == 1);
        lemma_pow10_mono(0, e as nat);
    }
    p
}

pub(crate) proof fn lemma_pow10_mono(a: nat, b: nat)
    requires
        a <= b,
    ensures
        pow10(a) <= pow10(b),
    decreases b,
{
    if a < b {
        lemma_pow10_mono(a, (b - 1) as nat);
    }
}

/// Whether `c` is a decimal digit.
pub open spec fn is_digit(c: char) -> bool {
    48 <= c as u32 <= 57
}

/// The value of a digit character.
pub open spec fn digit_val(c: char) -> int {
    c as u32 - 48
}

/// The number a digit string denotes, most significant digit first.
pub open spec fn digits_val(t: Seq<char>) -> int
    decreases t,
{
    if t.len() == 0 {
        0
    } else {
        digits_val(t.drop_last()) * 10 + digit_val(t.last())
    }
}

/// How many `/` characters the text holds.
pub open spec fn slash_count(t: Seq<char>) -> int
    decreases t,
{
    if t.len() == 0 {
        0
    } else {
        slash_count(t.drop_last()) + if t.last() == '/' {
            1int
        } else {
            0int
        }
    }
}

/// The position of the first `.` in the text, or its length if none.
pub open spec fn dot_pos(t: Seq<char>) -> int {
    if exists|i: int| 0 <= i < t.len() && t[i] == '.' {
        choose|i: int|
            0 <= i < t.len() && t[i] == '.' && forall|j: int| 0 <= j < i ==> t[j] != '.'
    } else {
        t.len() as int
    }
}

/// The integer digits of a decimal literal: what stands before the first dot.
pub open spec fn int_digits(t: Seq<char>) -> Seq<char> {
    t.subrange(0, dot_pos(t))
}

/// The fraction digits kept: what follows the first dot, cut to nine digits.
pub open spec fn frac_digits(t: Seq<char>) -> Seq<char> {
    if dot_pos(t) == t.len() {
        Seq::empty()
    } else {
        let f = t.subrange(dot_pos(t) + 1, t.len() as int);
        if f.len() <= 9 {
            f
        } else {
            f.subrange(0, 9)
        }
    }
}

/// Whether the text is a decimal literal: at least one digit, at most one
/// dot, and nothing else.
pub open spec fn valid_decimal(t: Seq<char>) -> bool {
    &&& t.len() >= 1
    &&& forall|i: int| 0 <= i < t.len() ==> (is_digit(#[trigger] t[i]) || t[i] == '.')
    &&& (forall|i: int, j: int|
        0 <= i < j < t.len() && t[i] == '.' ==> t[j] != '.')
    &&& exists|i: int| 0 <= i < t.len() && is_digit(#[trigger] t[i])
}

/// The mantissa a decimal literal denotes once its kept fraction digits are
/// drawn into the integer: the value of the digit string with the dot gone.
pub open spec fn decimal_mant(t: Seq<char>) -> int {
    digits_val(int_digits(t) + frac_digits(t))
}

/// How many fraction digits are kept.
pub open spec fn decimal_frac_len(t: Seq<char>) -> int {
    frac_digits(t).len() as int
}

/// What parsing a trimmed component yields: the mantissa and the count of
/// kept fraction digits, or nothing when the text is not a decimal literal
/// or its mantissa is too large.
pub open spec fn spec_parse_decimal(t: Seq<char>) -> Option<(u64, u32)> {
    if valid_decimal(t) && 0 <= decimal_mant(t) <= MANT_LIMIT {
        Option::Some((decimal_mant(t) as u64, decimal_frac_len(t) as u32))
    } else {
        Option::None
    }
}

/// Text with whitespace removed from both ends.
pub open spec fn trim_both(t: Seq<char>) -> Seq<char> {
    crate::markup::trim_end_text(crate::markup::trim_start_text(t))
}

/// The character span `[a, b)` of `s` left when whitespace is trimmed from
/// both ends of `[from, to)`.
fn trimmed_span(s: &str, from: usize, to: usize) -> (r: (usize, usize))
    requires
        from <= to <= s@.len(),
    ensures
        from <= r.0 <= r.1 <= to,
        s@.subrange(r.0 as int, r.1 as int) == trim_both(s@.subrange(from as int, to as int)),
{
    let ghost part = s@.subrange(from as int, to as int);
    let mut a: usize = from;
    while a < to && crate::markup::is_ws_char(s.get_char(a))
        invariant
            from <= a <= to <= s@.len(),
            forall|j: int| from <= j < a ==> crate::markup::is_ws(s@[j]),
        decreases to - a,
    {
        a = a + 1;
    }
    let mut b: usize = to;
    while b > a && crate::markup::is_ws_char(s.get_char(b - 1))
        invariant
            a <= b <= to <= s@.len(),
            a < to ==> !crate::markup::is_ws(s@[a as int]),
            forall|j: int| b <= j < to ==> crate::markup::is_ws(s@[j]),
        decreases b,
    {
        b = b - 1;
    }
    proof {
        assert(forall|j: int| 0 <= j < part.len() ==> part[j] == s@[from + j]);
        crate::markup::lemma_trim_start_chars(part, a - from);
        let q = part.subrange(a - from, part.len() as int);
        assert(crate::markup::trim_start_text(part) == q);
        crate::markup::lemma_trim_end_chars(q, b - a);
        assert(s@.subrange(a as int, b as int) =~= q.subrange(0, b - a));
    }
    (a, b)
}

proof fn lemma_digits_val_concat(a: Seq<char>, b: Seq<char>)
    ensures
        digits_val(a + b) == digits_val(a) * pow10(b.len()) + digits_val(b),
    decreases b,
{
    if b.len() == 0 {
        assert(a + b =~= a);
        assert(pow10(0) == 1);
    } else {
        lemma_digits_val_concat(a, b.drop_last());
        assert((a + b).drop_last() =~= a + b.drop_last());
        assert((a + b).last() == b.last());
        assert(digits_val(a) * pow10(b.len()) == (digits_val(a) * pow10((b.len() - 1) as nat))
            * 10) by (nonlinear_arith)
            requires
                pow10(b.len()) == 10 * pow10((b.len() - 1) as nat),
        ;
    }
}

proof fn lemma_digits_val_nonneg(t: Seq<char>)
    requires
        forall|i: int| 0 <= i < t.len() ==> is_digit(#[trigger] t[i]),
    ensures
        digits_val(t) >= 0,
    decreases t,
{
    if t.len() > 0 {
        assert(forall|i: int|
            0 <= i < t.drop_last().len() ==> is_digit(#[trigger] t.drop_last()[i]));
        lemma_digits_val_nonneg(t.drop_last());
        assert(is_digit(t.last()));
        assert(digits_val(t.drop_last()) * 10 >= 0) by (nonlinear_arith)
            requires
                digits_val(t.drop_last()) >= 0,
        ;
    }
}

proof fn lemma_dot_pos_is(t: Seq<char>, i: int)
    requires
        0 <= i < t.len(),
        t[i] == '.',
        forall|j: int| 0 <= j < i ==> t[j] != '.',
    ensures
        dot_pos(t) == i,
{
    let p = dot_pos(t);
    assert(0 <= p < t.len() && t[p] == '.' && forall|j: int| 0 <= j < p ==> t[j] != '.');
    if p < i {
        assert(t[p] != '.');
    } else if p > i {
        assert(t[i] != '.');
    }
}

proof fn lemma_dot_pos_none(t: Seq<char>)
    requires
        forall|j: int| 0 <= j < t.len() ==> t[j] != '.',
    ensures
        dot_pos(t) == t.len(),
{
    if exists|i: int| 0 <= i < t.len() && t[i] == '.' {
        let i = choose|i: int| 0 <= i < t.len() && t[i] == '.';
        assert(t[i] != '.');
    }
}

/// Check the shape of the trimmed span `[a, b)`: when it is a decimal
/// literal, yield the position of its dot, or `b` when it has none.
#[verifier::rlimit(100)]
fn scan_shape(s: &str, a: usize, b: usize) -> (r: Option<usize>)
    requires
        a <= b <= s@.len(),
    ensures
        ({
            let t = s@.subrange(a as int, b as int);
            match r {
                Option::None => !valid_decimal(t),
                Option::Some(d) => valid_decimal(t) && a <= d <= b && dot_pos(t) == d - a,
            }
        }),
{
    let ghost t = s@.subrange(a as int, b as int);
    proof {
        assert(forall|j: int| 0 <= j < t.len() ==> t[j] == s@[a + j]);
    }
    if a == b {
        return Option::None;
    }
    let mut dot: usize = b;
    let mut saw_dot = false;
    let mut i: usize = a;
    while i < b
        invariant
            a <= i <= b <= s@.len(),
            t == s@.subrange(a as int, b as int),
            t.len() == b - a,
            forall|j: int| 0 <= j < t.len() ==> t[j] == s@[a + j],
            saw_dot <==> dot < i,
            saw_dot ==> (a <= dot < i && s@[dot as int] == '.' && forall|j: int|
                a <= j < dot ==> s@[j] != '.'),
            saw_dot ==> (forall|j: int| dot < j < i ==> s@[j] != '.'),
            !saw_dot ==> (dot == b && forall|j: int| a <= j < i ==> s@[j] != '.'),
            forall|j: int| a <= j < i ==> (is_digit(#[trigger] s@[j]) || s@[j] == '.'),
        decreases b - i,
    {
        let c = s.get_char(i);
        if c == '.' {
            if saw_dot {
                proof {
                    assert(t[dot - a] == '.' && t[i - a] == '.' && dot - a < i - a);
                }
                return Option::None;
            }
            saw_dot = true;
            dot = i;
        } else if !((c as u32) >= 48 && (c as u32) <= 57) {
            proof {
                assert(t[i - a] == s@[i as int]);
                assert(!(is_digit(t[i - a]) || t[i - a] == '.'));
            }
            return Option::None;
        }
        i = i + 1;
    }
    if saw_dot && b - a == 1 {
        proof {
            assert(t[0] == '.');
            assert(forall|j: int| 0 <= j < t.len() ==> !is_digit(#[trigger] t[j]));
        }
        return Option::None;
    }
    proof {
        if saw_dot {
            lemma_dot_pos_is(t, dot - a);
            if dot == a {
                assert(t[1] == s@[a + 1]);
                assert(t[1] != '.');
                assert(is_digit(t[1]));
            } else {
                assert(t[0] != '.');
                assert(is_digit(t[0]));
            }
        } else {
            lemma_dot_pos_none(t);
            assert(t[0] != '.');
            assert(is_digit(t[0]));
        }
        assert(valid_decimal(t));
    }
    Option::Some(dot)
}

/// Fold the digit span `[from, to)` of `s` into `acc`, or report that the
/// nine-digit mantissa limit is passed.
fn accum_digits(s: &str, from: usize, to: usize, acc: u64, Ghost(prefix): Ghost<Seq<char>>) -> (r:
    Option<u64>)
    requires
        from <= to <= s@.len(),
        forall|j: int| from <= j < to ==> is_digit(#[trigger] s@[j]),
        forall|j: int| 0 <= j < prefix.len() ==> is_digit(#[trigger] prefix[j]),
        acc == digits_val(prefix),
        acc <= MANT_LIMIT,
    ensures
        ({
            let digs = prefix + s@.subrange(from as int, to as int);
            match r {
                Option::Some(v) => v == digits_val(digs) && v <= MANT_LIMIT,
                Option::None => digits_val(digs) > MANT_LIMIT,
            }
        }),
{
    let ghost digs = prefix + s@.subrange(from as int, to as int);
    proof {
        assert(forall|j: int|
            0 <= j < s@.subrange(from as int, to as int).len() ==> s@.subrange(
                from as int,
                to as int,
            )[j] == s@[from + j]);
        assert(forall|j: int| 0 <= j < digs.len() ==> is_digit(#[trigger] digs[j]));
        assert(digs.subrange(0, prefix.len() as int) =~= prefix);
    }
    let mut acc = acc;
    let mut k: usize = from;
    let ghost mut seen: Seq<char> = prefix;
    while k < to
        invariant
            from <= k <= to <= s@.len(),
            digs == prefix + s@.subrange(from as int, to as int),
            digs.len() == prefix.len() + (to - from),
            forall|j: int| 0 <= j < digs.len() ==> is_digit(#[trigger] digs[j]),
            forall|j: int| from <= j < to ==> is_digit(#[trigger] s@[j]),
            seen == digs.subrange(0, prefix.len() + (k - from)),
            acc == digits_val(seen),
            acc <= MANT_LIMIT,
        decreases to - k,
    {
        let c = s.get_char(k);
        let ghost pos = prefix.len() + (k - from);
        let ghost seen2 = seen.push(c);
        proof {
            assert(digs[pos as int] == s@.subrange(from as int, to as int)[k - from]);
            assert(digs[pos as int] == s@[k as int]);
            assert(seen2 =~= digs.subrange(0, pos as int + 1));
            assert(seen2.drop_last() =~= seen);
        }
        if acc > 99_999_999 {
            proof {
                let rest = digs.subrange(pos as int, digs.len() as int);
                assert(digs =~= seen + rest);
                lemma_digits_val_concat(seen, rest);
                assert(rest.len() >= 1);
                assert(forall|i2: int| 0 <= i2 < rest.len() ==> is_digit(#[trigger] rest[i2]));
                lemma_digits_val_nonneg(rest);
                assert(pow10(0) == 1);
                assert(pow10(1) == 10 * pow10(0));
                lemma_pow10_mono(1, rest.len());
                assert(digits_val(seen) * pow10(rest.len()) >= digits_val(seen) * 10)
                    by (nonlinear_arith)
                    requires
                        pow10(rest.len()) >= 10,
                        digits_val(seen) >= 0,
                ;
                assert(digits_val(digs) > MANT_LIMIT);
            }
            return Option::None;
        }
        acc = acc * 10 + ((c as u32) - 48) as u64;
        proof {
            assert(is_digit(digs[pos as int]));
            seen = seen2;
        }
        k = k + 1;
    }
    proof {
        assert(seen =~= digs);
    }
    Option::Some(acc)
}

/// Parse the character span `[from, to)` of `s`, trimmed, as a decimal
/// literal: the mantissa with up to nine fraction digits kept, and how many
/// fraction digits were kept.
pub fn parse_decimal(s: &str, from: usize, to: usize) -> (r: Option<(u64, u32)>)
    requires
        from <= to <= s@.len(),
    ensures
        r == spec_parse_decimal(trim_both(s@.subrange(from as int, to as int))),
{
    let (a, b) = trimmed_span(s, from, to);
    let ghost t = trim_both(s@.subrange(from as int, to as int));
    proof {
        assert(t == s@.subrange(a as int, b as int));
        assert(forall|j: int| 0 <= j < t.len() ==> t[j] == s@[a + j]);
    }
    let dot = match scan_shape(s, a, b) {
        Option::Some(d) => d,
        Option::None => {
            return Option::None;
        },
    };
    let int_end = dot;
    let frac_start = if dot == b {
        b
    } else {
        dot + 1
    };
    let frac_end = if b - frac_start > 9 {
        frac_start + 9
    } else {
        b
    };
    proof {
        assert(int_digits(t) =~= s@.subrange(a as int, int_end as int));
        assert(frac_digits(t) =~= s@.subrange(frac_start as int, frac_end as int));
        assert(forall|j: int| a <= j < int_end ==> #[trigger] s@[j] == t[j - a]);
        assert(forall|j: int| a <= j < int_end ==> is_digit(#[trigger] s@[j]));
        assert(forall|j: int| frac_start <= j < frac_end ==> #[trigger] s@[j] == t[j - a]);
        assert(forall|j: int| frac_start <= j < frac_end ==> is_digit(#[trigger] s@[j]));
    }
    let acc1 = match accum_digits(s, a, int_end, 0, Ghost(Seq::empty())) {
        Option::Some(v) => v,
        Option::None => {
            proof {
                lemma_mant_overflow(t);
            }
            return Option::None;
        },
    };
    proof {
        assert(Seq::<char>::empty() + s@.subrange(a as int, int_end as int) =~= int_digits(t));
    }
    let acc2 = match accum_digits(s, frac_start, frac_end, acc1, Ghost(int_digits(t))) {
        Option::Some(v) => v,
        Option::None => {
            return Option::None;
        },
    };
    let frac_len = (frac_end - frac_start) as u32;
    proof {
        assert(frac_len as int == decimal_frac_len(t));
    }
    Option::Some((acc2, frac_len))
}

/// When the integer digits alone pass the limit, the whole mantissa does.
proof fn lemma_mant_overflow(t: Seq<char>)
    requires
        forall|j: int| 0 <= j < frac_digits(t).len() ==> is_digit(#[trigger] frac_digits(t)[j]),
        digits_val(int_digits(t)) > MANT_LIMIT,
    ensures
        decimal_mant(t) > MANT_LIMIT,
{
    lemma_digits_val_concat(int_digits(t), frac_digits(t));
    lemma_digits_val_nonneg(frac_digits(t));
    assert(pow10(0) == 1);
    lemma_pow10_mono(0, frac_digits(t).len());
    assert(digits_val(int_digits(t)) * pow10(frac_digits(t).len()) >= digits_val(int_digits(t)))
        by (nonlinear_arith)
        requires
            pow10(frac_digits(t).len()) >= 1,
            digits_val(int_digits(t)) > 0,
    ;
}

/// Why an aspect-ratio text was rejected: the whole value, its width or its
/// height component did not parse as a positive decimal, or the text had
/// more than two `/`-separated parts.
#[derive(Clone, Copy, Debug, PartialEq, Eq, Structural)]
pub enum RatioError {
    Value,
    Width,
    Height,
    Form,
}

/// The position of the first `/` in the text, or its length if none.
pub open spec fn first_slash(t: Seq<char>) -> int {
    if exists|i: int| 0 <= i < t.len() && t[i] == '/' {
        choose|i: int|
            0 <= i < t.len() && t[i] == '/' && forall|j: int| 0 <= j < i ==> t[j] != '/'
    } else {
        t.len() as int
    }
}

proof fn lemma_first_slash_is(t: Seq<char>, i: int)
    requires
        0 <= i < t.len(),
        t[i] == '/',
        forall|j: int| 0 <= j < i ==> t[j] != '/',
    ensures
        first_slash(t) == i,
{
    let p = first_slash(t);
    assert(0 <= p < t.len() && t[p] == '/' && forall|j: int| 0 <= j < p ==> t[j] != '/');
    if p < i {
        assert(t[p] != '/');
    } else if p > i {
        assert(t[i] != '/');
    }
}

proof fn lemma_first_slash_none(t: Seq<char>)
    requires
        forall|j: int| 0 <= j < t.len() ==> t[j] != '/',
    ensures
        first_slash(t) == t.len(),
{
    if exists|i: int| 0 <= i < t.len() && t[i] == '/' {
        let i = choose|i: int| 0 <= i < t.len() && t[i] == '/';
        assert(t[i] != '/');
    }
}

/// What parsing an aspect-ratio text yields: a single decimal, or a
/// `width/height` pair of decimals, each read to an exact rational; or the
/// error naming the component at fault.
pub open spec fn spec_parse_ratio(t: Seq<char>) -> Result<AspectRatio, RatioError> {
    if slash_count(t) == 0 {
        match spec_parse_decimal(trim_both(t)) {
            Option::Some((m, f)) => if m >= 1 {
                Result::Ok(AspectRatio { num: m, den: pow10(f as nat) as u64 })
            } else {
                Result::Err(RatioError::Value)
            },
            Option::None => Result::Err(RatioError::Value),
        }
    } else if slash_count(t) == 1 {
        let p = first_slash(t);
        match spec_parse_decimal(trim_both(t.subrange(0, p))) {
            Option::Some((wm, wf)) => if wm >= 1 {
                match spec_parse_decimal(trim_both(t.subrange(p + 1, t.len() as int))) {
                    Option::Some((hm, hf)) => if hm >= 1 {
                        Result::Ok(
                            AspectRatio {
                                num: (wm * pow10(hf as nat)) as u64,
                                den: (hm * pow10(wf as nat)) as u64,
                            },
                        )
                    } else {
                        Result::Err(RatioError::Height)
                    },
                    Option::None => Result::Err(RatioError::Height),
                }
            } else {
                Result::Err(RatioError::Width)
            },
            Option::None => Result::Err(RatioError::Width),
        }
    } else {
        Result::Err(RatioError::Form)
    }
}

/// Parse an aspect ratio given as `width/height` or as a single decimal,
/// for example `5/7.2` or `0.7`.  Each component is a positive decimal with
/// at most nine significant digits; fraction digits past the ninth are
/// dropped.
#[verifier::rlimit(60)]
pub fn parse_aspect_ratio(s: &str) -> (r: Result<AspectRatio, RatioError>)
    ensures
        r == spec_parse_ratio(s@),
        r matches Result::Ok(ar) ==> ar.wf(),
{
    let n = s.unicode_len();
    let mut i: usize = 0;
    let mut count: usize = 0;
    let mut p: usize = n;
    while i < n
        invariant
            0 <= i <= n,
            n == s@.len(),
            count == slash_count(s@.subrange(0, i as int)),
            count <= i,
            count >= 1 ==> (p < i && s@[p as int] == '/' && forall|j: int|
                0 <= j < p ==> s@[j] != '/'),
            count == 0 ==> (p == n && forall|j: int| 0 <= j < i ==> s@[j] != '/'),
        decreases n - i,
    {
        let c = s.get_char(i);
        proof {
            assert(s@.subrange(0, i as int + 1).drop_last() =~= s@.subrange(0, i as int));
            assert(s@.subrange(0, i as int + 1).last() == s@[i as int]);
        }
        if c == '/' {
            if count == 0 {
                p = i;
            }
            count = count + 1;
        }
        i = i + 1;
    }
    proof {
        assert(s@.subrange(0, n as int) =~= s@);
    }
    if count == 0 {
        proof {
            lemma_first_slash_none(s@);
        }
        match parse_decimal(s, 0, n) {
            Option::Some((m, f)) => {
                proof {
                    assert(s@.subrange(0, n as int) =~= s@);
                }
                if m >= 1 {
                    let den = pow10_exec(f);
                    Result::Ok(AspectRatio { num: m, den })
                } else {
                    Result::Err(RatioError::Value)
                }
            },
            Option::None => Result::Err(RatioError::Value),
        }
    } else if count == 1 {
        proof {
            lemma_first_slash_is(s@, p as int);
        }
        match parse_decimal(s, 0, p) {
            Option::Some((wm, wf)) => {
                if wm >= 1 {
                    match parse_decimal(s, p + 1, n) {
                        Option::Some((hm, hf)) => {
                            if hm >= 1 {
                                let pw = pow10_exec(wf);
                                let ph = pow10_exec(hf);
                                proof {
                                    lemma_component_product(wm, ph as u64);
                                    lemma_component_product(hm, pw as u64);
                                }
                                Result::Ok(AspectRatio { num: wm * ph, den: hm * pw })
                            } else {
                                Result::Err(RatioError::Height)
                            }
                        },
                        Option::None => Result::Err(RatioError::Height),
                    }
                } else {
                    Result::Err(RatioError::Width)
                }
            },
            Option::None => Result::Err(RatioError::Width),
        }
    } else {
        Result::Err(RatioError::Form)
    }
}

proof fn lemma_component_product(m: u64, p: u64)
    requires
        1 <= m <= 999_999_999,
        1 <= p <= 1_000_000_000,
    ensures
        1 <= m * p <= 1_000_000_000_000_000_000,
{
    assert(m * p <= 999_999_999 * 1_000_000_000) by (nonlinear_arith)
        requires
            1 <= m <= 999_999_999,
            1 <= p <= 1_000_000_000,
    ;
    assert(m * p >= 1) by (nonlinear_arith)
        requires
            1 <= m,
            1 <= p,
    ;
}

/// The message of a ratio error, around the offending input.
pub open spec fn spec_ratio_message(e: RatioError, input: Seq<char>) -> Seq<char> {
    match e {
        RatioError::Value => ratio_msg_head() + input + ratio_msg_value(),
        RatioError::Width => ratio_msg_head() + input + ratio_msg_width(),
        RatioError::Height => ratio_msg_head() + input + ratio_msg_height(),
        RatioError::Form => ratio_msg_form() + input,
    }
}

pub open spec fn ratio_msg_head() -> Seq<char> {
    seq![
        'i', 'n', 'v', 'a', 'l', 'i', 'd', ' ', 'a', 's', 'p', 'e', 'c', 't', ' ', 'r', 'a',
        't', 'i', 'o', ':', ' ',
    ]
}

pub open spec fn ratio_msg_value() -> Seq<char> {
    seq![
        ' ', '(', 'c', 'o', 'u', 'l', 'd', ' ', 'n', 'o', 't', ' ', 'p', 'a', 'r', 's', 'e',
        ' ', 'a', 's', ' ', 'a', ' ', 'n', 'u', 'm', 'b', 'e', 'r', ')',
    ]
}

pub open spec fn ratio_msg_width() -> Seq<char> {
    seq![
        ' ', '(', 'c', 'o', 'u', 'l', 'd', ' ', 'n', 'o', 't', ' ', 'p', 'a', 'r', 's', 'e',
        ' ', 'w', 'i', 'd', 't', 'h', ')',
    ]
}

pub open spec fn ratio_msg_height() -> Seq<char> {
    seq![
        ' ', '(', 'c', 'o', 'u', 'l', 'd', ' ', 'n', 'o', 't', ' ', 'p', 'a', 'r', 's', 'e',
        ' ', 'h', 'e', 'i', 'g', 'h', 't', ')',
    ]
}

pub open spec fn ratio_msg_form() -> Seq<char> {
    seq![
        'c', 'a', 'n', 'n', 'o', 't', ' ', 'p', 'a', 'r', 's', 'e', ' ', 'a', 'n', ' ', 'a',
        's', 'p', 'e', 'c', 't', ' ', 'r', 'a', 't', 'i', 'o', ' ', 'f', 'r', 'o', 'm', ' ',
        't', 'h', 'i', 's', ':', ' ',
    ]
}

impl RatioError {
    /// The error rendered for a report, naming the input and the component
    /// at fault.
    pub fn message(&self, input: &str) -> (r: String)
        ensures
            r@ == spec_ratio_message(*self, input@),
    {
        let mut out = String::new();
        proof {
            reveal_strlit("invalid aspect ratio: ");
            reveal_strlit("cannot parse an aspect ratio from this: ");
            reveal_strlit(" (could not parse as a number)");
            reveal_strlit(" (could not parse width)");
            reveal_strlit(" (could not parse height)");
            assert("invalid aspect ratio: "@ =~= ratio_msg_head());
            assert("cannot parse an aspect ratio from this: "@ =~= ratio_msg_form());
            assert(" (could not parse as a number)"@ =~= ratio_msg_value());
            assert(" (could not parse width)"@ =~= ratio_msg_width());
            assert(" (could not parse height)"@ =~= ratio_msg_height());
        }
        match self {
            RatioError::Value => {
                out.append("invalid aspect ratio: ");
                out.append(input);
                out.append(" (could not parse as a number)");
            },
            RatioError::Width => {
                out.append("invalid aspect ratio: ");
                out.append(input);
                out.append(" (could not parse width)");
            },
            RatioError::Height => {
                out.append("invalid aspect ratio: ");
                out.append(input);
                out.append(" (could not parse height)");
            },
            RatioError::Form => {
                out.append("cannot parse an aspect ratio from this: ");
                out.append(input);
            },
        }
        proof {
            assert(out@ =~= spec_ratio_message(*self, input@));
        }
        out
    }
}

/// The derived sheet height when the card is wider than the base ratio:
/// `floor(max_side * rows * den / (columns * num))`, capped at the pixel
/// limit.
pub open spec fn spec_wider_height(max_side: u32, r: AspectRatio) -> int {
    let h = (max_side * ROWS * r.den) / (COLUMNS * r.num);
    if h > u32::MAX {
        u32::MAX as int
    } else {
        h
    }
}

/// The derived sheet width when the card is taller than the base ratio:
/// `floor(max_side * columns * num / (rows * den))`, capped at the pixel
/// limit.
pub open spec fn spec_taller_width(max_side: u32, r: AspectRatio) -> int {
    let w = (max_side * COLUMNS * r.num) / (ROWS * r.den);
    if w > u32::MAX {
        u32::MAX as int
    } else {
        w
    }
}

/// Sheet and per-card geometry for one render session.
///
/// `height` and `width` are the sheet's pixels.  `card_width` and
/// `card_height` are the card's size in the logical base-resolution
/// coordinate space, and `pix_scale` maps that space to device pixels;
/// drawing code never needs the final resolution.
#[derive(Clone, Copy, Debug)]
pub struct Dimensions {
    pub height: u32,
    pub width: u32,
    pub card_width: Frac,
    pub card_height: Frac,
    pub pix_scale: Frac,
}

impl Dimensions {
    pub open spec fn wf(self) -> bool {
        self.card_width.wf() && self.card_height.wf() && self.pix_scale.wf()
    }

    /// Derive the sheet and card geometry from the longest-side resolution
    /// and the card aspect ratio.  Three-way split against the base 25/36
    /// ratio:
    /// - exactly the base ratio: a square `max_side` sheet;
    /// - wider: the width drives, the sheet height is derived and floored;
    /// - taller: the height drives, the sheet width is derived and floored.
    ///
    /// The derived dimension must come to at least one pixel, which rules
    /// out degenerate resolutions and ratios.
    pub fn new(max_side: u32, card_aspect_ratio: AspectRatio) -> (r: Dimensions)
        requires
            max_side >= 1,
            card_aspect_ratio.wf(),
            card_aspect_ratio.spec_wider_than_base() ==> spec_wider_height(
                max_side,
                card_aspect_ratio,
            ) >= 1,
            (!card_aspect_ratio.spec_wider_than_base()
                && !card_aspect_ratio.spec_is_base()) ==> spec_taller_width(
                max_side,
                card_aspect_ratio,
            ) >= 1,
        ensures
            r.wf(),
            card_aspect_ratio.spec_is_base() ==> (r.height == max_side && r.width == max_side
                && r.pix_scale.num == max_side && r.pix_scale.den == 4096 && r.card_width.num
                == 4096 && r.card_width.den == 10 && r.card_height.num == 4096
                && r.card_height.den == 7),
            card_aspect_ratio.spec_wider_than_base() ==> (r.width == max_side && r.height
                == spec_wider_height(max_side, card_aspect_ratio) && r.pix_scale.num == r.height
                && r.pix_scale.den == 4096 && r.card_width.num == 4096 * 4096 && r.card_width.den
                == 10 * r.height && r.card_height.num == 4096 * 4096 * card_aspect_ratio.den
                && r.card_height.den == 10 * r.height * card_aspect_ratio.num),
            (!card_aspect_ratio.spec_wider_than_base() && !card_aspect_ratio.spec_is_base()) ==> (
            r.height == max_side && r.width == spec_taller_width(max_side, card_aspect_ratio)
                && r.pix_scale.num == r.width && r.pix_scale.den == 4096 && r.card_height.num
                == 4096 * 4096 && r.card_height.den == 7 * r.width && r.card_width.num == 4096
                * 4096 * card_aspect_ratio.num && r.card_width.den == 7 * r.width
                * card_aspect_ratio.den),
    {
        let r = card_aspect_ratio;
        let base = AspectRatio::base();
        proof {
            lemma_dims_bounds(max_side, r);
        }
        if r.is_wider_than(base) {
            // the sheet is wider than it is tall: the width drives
            let num_h: u128 = (max_side as u128) * (ROWS as u128) * (r.den as u128);
            let den_h: u128 = (COLUMNS as u128) * (r.num as u128);
            let h128: u128 = num_h / den_h;
            let height: u32 = if h128 > 0xFFFF_FFFF {
                0xFFFF_FFFF
            } else {
                h128 as u32
            };
            proof {
                assert(height as int == spec_wider_height(max_side, r));
                assert(height >= 1);
                assert(10 * (height as int) * (r.num as int) <= 10 * (0xFFFF_FFFF as int)
                    * (r.num as int)) by (nonlinear_arith)
                    requires
                        0 <= height as int <= 0xFFFF_FFFF,
                        r.num as int >= 0,
                ;
                assert(10 * (height as int) * (r.num as int) >= 1) by (nonlinear_arith)
                    requires
                        height as int >= 1,
                        r.num as int >= 1,
                ;
            }
            Dimensions {
                height,
                width: max_side,
                card_width: Frac { num: 4096 * 4096, den: 10 * (height as u128) },
                card_height: Frac {
                    num: 4096 * 4096 * (r.den as u128),
                    den: 10 * (height as u128) * (r.num as u128),
                },
                pix_scale: Frac { num: height as u128, den: 4096 },
            }
        } else if !r.is_taller_than(base) {
            // exactly the base ratio: force a square texture
            Dimensions {
                height: max_side,
                width: max_side,
                card_width: Frac { num: 4096, den: 10 },
                card_height: Frac { num: 4096, den: 7 },
                pix_scale: Frac { num: max_side as u128, den: 4096 },
            }
        } else {
            // the sheet is taller than it is wide: the height drives
            let num_w: u128 = (max_side as u128) * (COLUMNS as u128) * (r.num as u128);
            let den_w: u128 = (ROWS as u128) * (r.den as u128);
            let w128: u128 = num_w / den_w;
            let width: u32 = if w128 > 0xFFFF_FFFF {
                0xFFFF_FFFF
            } else {
                w128 as u32
            };
            proof {
                assert(width as int == spec_taller_width(max_side, r));
                assert(width >= 1);
                assert(7 * (width as int) * (r.den as int) <= 7 * (0xFFFF_FFFF as int)
                    * (r.den as int)) by (nonlinear_arith)
                    requires
                        0 <= width as int <= 0xFFFF_FFFF,
                        r.den as int >= 0,
                ;
                assert(7 * (width as int) * (r.den as int) >= 1) by (nonlinear_arith)
                    requires
                        width as int >= 1,
                        r.den as int >= 1,
                ;
            }
            Dimensions {
                height: max_side,
                width,
                card_width: Frac {
                    num: 4096 * 4096 * (r.num as u128),
                    den: 7 * (width as u128) * (r.den as u128),
                },
                card_height: Frac { num: 4096 * 4096, den: 7 * (width as u128) },
                pix_scale: Frac { num: width as u128, den: 4096 },
            }
        }
    }
}

/// The intermediate products of the geometry derivation stay well inside
/// the machine arithmetic.
proof fn lemma_dims_bounds(max_side: u32, r: AspectRatio)
    requires
        r.wf(),
    ensures
        max_side * ROWS * r.den <= u128::MAX,
        max_side * COLUMNS * r.num <= u128::MAX,
        COLUMNS * r.num >= 1,
        ROWS * r.den >= 1,
        10 * (u32::MAX as int) * r.num <= u128::MAX,
        7 * (u32::MAX as int) * r.den <= u128::MAX,
        4096 * 4096 * r.den <= u128::MAX,
        4096 * 4096 * r.num <= u128::MAX,
{
    let m = max_side as int;
    let n = r.num as int;
    let d = r.den as int;
    assert(m * 7 * d <= 0xFFFF_FFFF * 7 * 1_000_000_000_000_000_000) by (nonlinear_arith)
        requires
            0 <= m <= 0xFFFF_FFFF,
            0 <= d <= 1_000_000_000_000_000_000,
    ;
    assert(m * 10 * n <= 0xFFFF_FFFF * 10 * 1_000_000_000_000_000_000) by (nonlinear_arith)
        requires
            0 <= m <= 0xFFFF_FFFF,
            0 <= n <= 1_000_000_000_000_000_000,
    ;
    assert(10 * n >= 1 && 7 * d >= 1) by (nonlinear_arith)
        requires
            n >= 1,
            d >= 1,
    ;
    assert(10 * (0xFFFF_FFFF as int) * n <= 10 * 0xFFFF_FFFF * 1_000_000_000_000_000_000)
        by (nonlinear_arith)
        requires
            0 <= n <= 1_000_000_000_000_000_000,
    ;
    assert(7 * (0xFFFF_FFFF as int) * d <= 7 * 0xFFFF_FFFF * 1_000_000_000_000_000_000)
        by (nonlinear_arith)
        requires
            0 <= d <= 1_000_000_000_000_000_000,
    ;
    assert(4096 * 4096 * d <= 4096 * 4096 * 1_000_000_000_000_000_000) by (nonlinear_arith)
        requires
            0 <= d <= 1_000_000_000_000_000_000,
    ;
    assert(4096 * 4096 * n <= 4096 * 4096 * 1_000_000_000_000_000_000) by (nonlinear_arith)
        requires
            0 <= n <= 1_000_000_000_000_000_000,
    ;
}

} // verus!
