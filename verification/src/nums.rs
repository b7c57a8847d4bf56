//! Fixed-point numbers and their decimal text form.
//!
//! A probability or accuracy is stored as a `u64` that stands for
//! `value / PROB_SCALE`.  This module renders such numbers as decimal text
//! and parses them back, exactly.

use vstd::prelude::*;

use crate::strutil::push_char;

verus! {

/// A stored value `v` stands for the number `v / PROB_SCALE`.
pub const PROB_SCALE: u64 = 1_000_000_000;

/// Largest sample total a table may record.
pub const TOTAL_MAX: u64 = 1_000_000_000;

/// Largest representable probability value (18.0); chosen so that a
/// probability times a sample total never overflows a `u64`.
pub const PROB_MAX: u64 = 18_000_000_000;

/// Number of fractional digits carried by a fixed-point value.
pub const FRAC_DIGITS: u64 = 9;

pub open spec fn is_digit(c: char) -> bool {
    c == '0' || c == '1' || c == '2' || c == '3' || c == '4' || c == '5' || c == '6' || c == '7'
        || c == '8' || c == '9'
}

pub open spec fn digit_char(d: int) -> char {
    if d == 0 {
        '0'
    } else if d == 1 {
        '1'
    } else if d == 2 {
        '2'
    } else if d == 3 {
        '3'
    } else if d == 4 {
        '4'
    } else if d == 5 {
        '5'
    } else if d == 6 {
        '6'
    } else if d == 7 {
        '7'
    } else if d == 8 {
        '8'
    } else {
        '9'
    }
}

pub open spec fn digit_val(c: char) -> int {
    if c == '0' {
        0
    } else if c == '1' {
        1
    } else if c == '2' {
        2
    } else if c == '3' {
        3
    } else if c == '4' {
        4
    } else if c == '5' {
        5
    } else if c == '6' {
        6
    } else if c == '7' {
        7
    } else if c == '8' {
        8
    } else {
        9
    }
}

/// Decimal text of `n`, without leading zeros (a single `0` for zero).
pub open spec fn dec_str(n: nat) -> Seq<char>
    decreases n,
{
    if n < 10 {
        seq![digit_char(n as int)]
    } else {
        dec_str(n / 10) + seq![digit_char((n % 10) as int)]
    }
}

/// Decimal text of `n` padded with leading zeros to exactly `w` digits.
pub open spec fn dec_str_pad(n: nat, w: nat) -> Seq<char>
    decreases w,
{
    if w == 0 {
        Seq::empty()
    } else {
        dec_str_pad(n / 10, (w - 1) as nat) + seq![digit_char((n % 10) as int)]
    }
}

pub open spec fn all_digits(s: Seq<char>) -> bool {
    forall|i: int| 0 <= i < s.len() ==> is_digit(#[trigger] s[i])
}

/// The number a sequence of decimal digits denotes.
pub open spec fn dec_val(s: Seq<char>) -> int
    decreases s.len(),
{
    if s.len() == 0 {
        0
    } else {
        dec_val(s.drop_last()) * 10 + digit_val(s.last())
    }
}

/// Fixed-point values are written with all `FRAC_DIGITS` fractional digits:
/// `<int>.<nine digits>`, or just `<int>` when the fraction is zero.
pub open spec fn fixed_str(p: u64) -> Seq<char> {
    if p % PROB_SCALE == 0 {
        dec_str((p / PROB_SCALE) as nat)
    } else {
        dec_str((p / PROB_SCALE) as nat) + seq!['.'] + dec_str_pad(
            (p % PROB_SCALE) as nat,
            FRAC_DIGITS as nat,
        )
    }
}

proof fn lemma_digit_roundtrip(d: int)
    requires
        0 <= d < 10,
    ensures
        is_digit(digit_char(d)),
        digit_val(digit_char(d)) == d,
{
}

/// Decimal text always consists of digits and denotes the number it was
/// rendered from.
pub proof fn lemma_dec_str_val(n: nat)
    ensures
        dec_str(n).len() >= 1,
        all_digits(dec_str(n)),
        dec_val(dec_str(n)) == n,
    decreases n,
{
    if n < 10 {
        lemma_digit_roundtrip(n as int);
        let s = dec_str(n);
        assert(s =~= seq![digit_char(n as int)]);
        assert(s.drop_last() =~= Seq::<char>::empty());
        assert(s.last() == digit_char(n as int));
        assert(dec_val(s) == dec_val(s.drop_last()) * 10 + digit_val(s.last()));
    } else {
        lemma_dec_str_val(n / 10);
        lemma_digit_roundtrip((n % 10) as int);
        let s = dec_str(n);
        assert(s.drop_last() =~= dec_str(n / 10));
        assert(s.last() == digit_char((n % 10) as int));
        assert(dec_val(s) == (n / 10) * 10 + (n % 10));
    }
}

/// Padded decimal text has the requested width, consists of digits, and
/// denotes the number when the number fits in the width.
pub proof fn lemma_dec_str_pad_val(n: nat, w: nat)
    requires
        n < pow10(w),
    ensures
        dec_str_pad(n, w).len() == w,
        all_digits(dec_str_pad(n, w)),
        dec_val(dec_str_pad(n, w)) == n,
    decreases w,
{
    if w == 0 {
    } else {
        assert(pow10(w) == 10 * pow10((w - 1) as nat));
        lemma_dec_str_pad_val(n / 10, (w - 1) as nat);
        lemma_digit_roundtrip((n % 10) as int);
        let s = dec_str_pad(n, w);
        assert(s.drop_last() =~= dec_str_pad(n / 10, (w - 1) as nat));
        assert(s.last() == digit_char((n % 10) as int));
        assert(dec_val(s) == (n / 10) * 10 + (n % 10));
    }
}

pub open spec fn pow10(w: nat) -> nat
    decreases w,
{
    if w == 0 {
        1nat
    } else {
        10 * pow10((w - 1) as nat)
    }
}

pub proof fn lemma_dec_val_nonneg(s: Seq<char>)
    ensures
        dec_val(s) >= 0,
    decreases s.len(),
{
    if s.len() > 0 {
        lemma_dec_val_nonneg(s.drop_last());
        assert(digit_val(s.last()) >= 0);
    }
}

/// Extending a digit string on the right can only increase its value.
pub proof fn lemma_dec_val_prefix(s: Seq<char>, i: int)
    requires
        0 <= i <= s.len(),
    ensures
        dec_val(s.take(i)) <= dec_val(s),
    decreases s.len() - i,
{
    if i < s.len() {
        lemma_dec_val_prefix(s, i + 1);
        assert(s.take(i + 1).drop_last() =~= s.take(i));
        assert(s.take(i + 1).last() == s[i]);
        lemma_dec_val_nonneg(s.take(i));
        assert(dec_val(s.take(i + 1)) == dec_val(s.take(i)) * 10 + digit_val(s[i]));
        assert(dec_val(s.take(i)) * 10 >= dec_val(s.take(i))) by (nonlinear_arith)
            requires
                dec_val(s.take(i)) >= 0,
        ;
    } else {
        assert(s.take(i) =~= s);
    }
}

fn digit_to_char(d: u64) -> (c: char)
    requires
        d < 10,
    ensures
        c == digit_char(d as int),
{
    if d == 0 {
        '0'
    } else if d == 1 {
        '1'
    } else if d == 2 {
        '2'
    } else if d == 3 {
        '3'
    } else if d == 4 {
        '4'
    } else if d == 5 {
        '5'
    } else if d == 6 {
        '6'
    } else if d == 7 {
        '7'
    } else if d == 8 {
        '8'
    } else {
        '9'
    }
}

fn char_to_digit(c: char) -> (r: Option<u64>)
    ensures
        match r {
            Some(d) => is_digit(c) && d == digit_val(c) && d < 10,
            None => !is_digit(c),
        },
{
    if c == '0' {
        Some(0)
    } else if c == '1' {
        Some(1)
    } else if c == '2' {
        Some(2)
    } else if c == '3' {
        Some(3)
    } else if c == '4' {
        Some(4)
    } else if c == '5' {
        Some(5)
    } else if c == '6' {
        Some(6)
    } else if c == '7' {
        Some(7)
    } else if c == '8' {
        Some(8)
    } else if c == '9' {
        Some(9)
    } else {
        None
    }
}

pub fn push_dec(s: &mut String, n: u64)
    ensures
        final(s)@ == old(s)@ + dec_str(n as nat),
    decreases n,
{
    if n < 10 {
        push_char(s, digit_to_char(n));
        assert(final(s)@ =~= old(s)@ + dec_str(n as nat));
    } else {
        push_dec(s, n / 10);
        push_char(s, digit_to_char(n % 10));
        assert(final(s)@ =~= old(s)@ + dec_str(n as nat));
    }
}

fn push_dec_pad(s: &mut String, n: u64, w: u64)
    ensures
        final(s)@ == old(s)@ + dec_str_pad(n as nat, w as nat),
    decreases w,
{
    if w == 0 {
        assert(final(s)@ =~= old(s)@ + dec_str_pad(n as nat, 0));
    } else {
        push_dec_pad(s, n / 10, w - 1);
        push_char(s, digit_to_char(n % 10));
        assert(final(s)@ =~= old(s)@ + dec_str_pad(n as nat, w as nat));
    }
}

/// Decimal text of `n`.
pub fn render_u64(n: u64) -> (s: String)
    ensures
        s@ == dec_str(n as nat),
{
    let mut s = String::new();
    push_dec(&mut s, n);
    assert(s@ =~= dec_str(n as nat));
    s
}

/// Appends the decimal text of a fixed-point value to `s`.
pub fn push_fixed(s: &mut String, p: u64)
    ensures
        final(s)@ == old(s)@ + fixed_str(p),
{
    let ip = p / PROB_SCALE;
    let fp = p % PROB_SCALE;
    push_dec(s, ip);
    if fp != 0 {
        push_char(s, '.');
        push_dec_pad(s, fp, FRAC_DIGITS);
        assert(final(s)@ =~= old(s)@ + fixed_str(p));
    } else {
        assert(final(s)@ =~= old(s)@ + fixed_str(p));
    }
}

/// Decimal text of a fixed-point value.
pub fn render_fixed(p: u64) -> (s: String)
    ensures
        s@ == fixed_str(p),
{
    let mut s = String::new();
    push_fixed(&mut s, p);
    assert(s@ =~= fixed_str(p));
    s
}

/// The value a digit string denotes, if it is a nonempty digit string whose
/// value fits in a `u64`.
pub open spec fn u64_val_of(s: Seq<char>) -> Option<u64> {
    if s.len() >= 1 && all_digits(s) && dec_val(s) <= u64::MAX {
        Some(dec_val(s) as u64)
    } else {
        None
    }
}

/// Parses a nonempty string of decimal digits.
pub fn parse_u64(s: &str) -> (r: Option<u64>)
    ensures
        r == u64_val_of(s@),
{
    let n = s.unicode_len();
    if n == 0 {
        return None;
    }
    let mut acc: u64 = 0;
    let mut i: usize = 0;
    while i < n
        invariant
            0 <= i <= n,
            n == s@.len(),
            all_digits(s@.take(i as int)),
            acc == dec_val(s@.take(i as int)),
        decreases n - i,
    {
        let c = s.get_char(i);
        match char_to_digit(c) {
            None => {
                assert(!all_digits(s@));
                return None;
            },
            Some(d) => {
                proof {
                    assert(s@.take(i + 1).drop_last() =~= s@.take(i as int));
                    assert(s@.take(i + 1).last() == s@[i as int]);
                }
                if acc > (u64::MAX - d) / 10 {
                    proof {
                        assert(dec_val(s@.take(i + 1)) == acc * 10 + d);
                        assert(acc * 10 + d > u64::MAX) by (nonlinear_arith)
                            requires
                                acc > (u64::MAX - d) / 10,
                                d < 10,
                                acc >= 0,
                        ;
                        lemma_dec_val_prefix(s@, i + 1);
                        assert(dec_val(s@) > u64::MAX);
                    }
                    return None;
                }
                proof {
                    assert(acc * 10 + d <= u64::MAX) by (nonlinear_arith)
                        requires
                            acc <= (u64::MAX - d) / 10,
                            d < 10,
                            acc >= 0,
                    ;
                    assert(dec_val(s@.take(i + 1)) == acc * 10 + d);
                }
                acc = acc * 10 + d;
                i += 1;
            },
        }
    }
    proof {
        assert(s@.take(n as int) =~= s@);
    }
    Some(acc)
}

/// Index of the first `.` in `s`, or `s.len()` if there is none.
pub open spec fn dot_idx(s: Seq<char>) -> int
    decreases s.len(),
{
    if s.len() == 0 {
        0
    } else if s[0] == '.' {
        0
    } else {
        1 + dot_idx(s.drop_first())
    }
}

pub proof fn lemma_dot_idx(s: Seq<char>)
    ensures
        0 <= dot_idx(s) <= s.len(),
        dot_idx(s) < s.len() ==> s[dot_idx(s)] == '.',
        forall|j: int| 0 <= j < dot_idx(s) ==> s[j] != '.',
    decreases s.len(),
{
    if s.len() > 0 && s[0] != '.' {
        lemma_dot_idx(s.drop_first());
        assert(forall|j: int| 0 <= j < dot_idx(s.drop_first()) ==> s.drop_first()[j] != '.');
        assert(forall|j: int| 1 <= j < dot_idx(s) ==> s[j] == s.drop_first()[j - 1]);
    }
}

pub proof fn lemma_dot_idx_digits(s: Seq<char>)
    requires
        all_digits(s),
    ensures
        dot_idx(s) == s.len(),
    decreases s.len(),
{
    if s.len() > 0 {
        assert(is_digit(s[0]));
        assert(s[0] != '.');
        assert(all_digits(s.drop_first())) by {
            assert(forall|j: int|
                0 <= j < s.drop_first().len() ==> #[trigger] s.drop_first()[j] == s[j + 1]);
        }
        lemma_dot_idx_digits(s.drop_first());
    }
}

pub proof fn lemma_dot_idx_concat(a: Seq<char>, b: Seq<char>)
    requires
        all_digits(a),
    ensures
        dot_idx(a + seq!['.'] + b) == a.len(),
    decreases a.len(),
{
    let s = a + seq!['.'] + b;
    if a.len() == 0 {
        assert(s[0] == '.');
    } else {
        assert(is_digit(s[0]));
        assert(s[0] != '.');
        assert(all_digits(a.drop_first())) by {
            assert(forall|j: int|
                0 <= j < a.drop_first().len() ==> #[trigger] a.drop_first()[j] == a[j + 1]);
        }
        lemma_dot_idx_concat(a.drop_first(), b);
        assert(s.drop_first() =~= a.drop_first() + seq!['.'] + b);
    }
}

/// A digit string of length `w` denotes a number below `pow10(w)`.
pub proof fn lemma_dec_val_bound(s: Seq<char>)
    requires
        all_digits(s),
    ensures
        0 <= dec_val(s) < pow10(s.len()),
    decreases s.len(),
{
    if s.len() == 0 {
    } else {
        assert(all_digits(s.drop_last())) by {
            assert(forall|j: int|
                0 <= j < s.drop_last().len() ==> #[trigger] s.drop_last()[j] == s[j]);
        }
        lemma_dec_val_bound(s.drop_last());
        assert(is_digit(s.last()));
        assert(0 <= digit_val(s.last()) < 10);
        let v = dec_val(s.drop_last());
        let w = s.drop_last().len();
        assert(pow10(s.len()) == 10 * pow10(w)) by {
            assert(s.len() == w + 1);
        }
        assert(v * 10 + digit_val(s.last()) < 10 * pow10(w)) by (nonlinear_arith)
            requires
                0 <= v < pow10(w),
                0 <= digit_val(s.last()) < 10,
        ;
    }
}

pub proof fn lemma_pow10_add(a: nat, b: nat)
    ensures
        pow10(a) * pow10(b) == pow10(a + b),
    decreases a,
{
    if a == 0 {
        assert(pow10(0) == 1);
    } else {
        lemma_pow10_add((a - 1) as nat, b);
        assert(pow10(a) == 10 * pow10((a - 1) as nat));
        assert(pow10(a + b) == 10 * pow10(((a - 1) + b) as nat));
        assert((10 * pow10((a - 1) as nat)) * pow10(b) == 10 * (pow10((a - 1) as nat) * pow10(
            b,
        ))) by (nonlinear_arith);
    }
}

/// Value of a fractional digit string, read to `FRAC_DIGITS` places: shorter
/// strings are padded with zeros on the right, longer ones are truncated.
pub open spec fn frac_val(f: Seq<char>) -> int {
    if f.len() >= FRAC_DIGITS {
        dec_val(f.take(FRAC_DIGITS as int))
    } else {
        dec_val(f) * pow10((FRAC_DIGITS - f.len()) as nat)
    }
}

pub proof fn lemma_frac_val_bound(f: Seq<char>)
    requires
        all_digits(f),
    ensures
        0 <= frac_val(f) < PROB_SCALE,
    decreases f.len(),
{
    reveal_with_fuel(pow10, 11);
    assert(pow10(FRAC_DIGITS as nat) == PROB_SCALE);
    if f.len() >= FRAC_DIGITS {
        let t = f.take(FRAC_DIGITS as int);
        assert(all_digits(t)) by {
            assert(forall|j: int| 0 <= j < t.len() ==> #[trigger] t[j] == f[j]);
        }
        lemma_dec_val_bound(t);
    } else {
        lemma_dec_val_bound(f);
        let w = (FRAC_DIGITS - f.len()) as nat;
        lemma_pow10_add(f.len(), w);
        assert(dec_val(f) * pow10(w) < pow10(f.len()) * pow10(w)) by (nonlinear_arith)
            requires
                0 <= dec_val(f) < pow10(f.len()),
                pow10(w) >= 1,
        ;
        assert(pow10(w) >= 1) by {
            lemma_pow10_pos(w);
        }
    }
}

pub proof fn lemma_pow10_pos(w: nat)
    ensures
        pow10(w) >= 1,
    decreases w,
{
    if w > 0 {
        lemma_pow10_pos((w - 1) as nat);
    }
}

/// The fixed-point value a decimal string denotes: an optional integer part
/// and an optional fractional part around a single `.`, at least one digit in
/// all, with a value that fits in a `u64`.
pub open spec fn fixed_val_of(s: Seq<char>) -> Option<u64> {
    let d = dot_idx(s);
    if d == s.len() {
        if s.len() >= 1 && all_digits(s) && dec_val(s) * PROB_SCALE <= u64::MAX {
            Some((dec_val(s) * PROB_SCALE) as u64)
        } else {
            None
        }
    } else {
        let ip = s.take(d);
        let f = s.skip(d + 1);
        if ip.len() + f.len() >= 1 && all_digits(ip) && all_digits(f) && dec_val(ip) * PROB_SCALE
            + frac_val(f) <= u64::MAX {
            Some((dec_val(ip) * PROB_SCALE + frac_val(f)) as u64)
        } else {
            None
        }
    }
}

/// Rendering a fixed-point value and parsing it back returns the value.
pub proof fn lemma_fixed_roundtrip(p: u64)
    ensures
        fixed_val_of(fixed_str(p)) == Some(p),
{
    reveal_with_fuel(pow10, 11);
    assert(pow10(FRAC_DIGITS as nat) == PROB_SCALE);
    let ip = (p / PROB_SCALE) as nat;
    let fp = (p % PROB_SCALE) as nat;
    lemma_dec_str_val(ip);
    if fp == 0 {
        let s = fixed_str(p);
        assert(s == dec_str(ip));
        lemma_dot_idx_digits(s);
        assert(dec_val(s) * PROB_SCALE == ip * PROB_SCALE);
        assert(ip * PROB_SCALE + fp == p) by (nonlinear_arith)
            requires
                ip == p / PROB_SCALE,
                fp == p % PROB_SCALE,
                PROB_SCALE == 1_000_000_000,
        ;
    } else {
        let a = dec_str(ip);
        let b = dec_str_pad(fp, FRAC_DIGITS as nat);
        let s = fixed_str(p);
        assert(s == a + seq!['.'] + b);
        lemma_dec_str_pad_val(fp, FRAC_DIGITS as nat);
        lemma_dot_idx_concat(a, b);
        let d = dot_idx(s);
        assert(d == a.len());
        assert(s.take(d) =~= a);
        assert(s.skip(d + 1) =~= b);
        assert(b.take(FRAC_DIGITS as int) =~= b);
        assert(frac_val(b) == dec_val(b));
        assert(ip * PROB_SCALE + fp == p) by (nonlinear_arith)
            requires
                ip == p / PROB_SCALE,
                fp == p % PROB_SCALE,
                PROB_SCALE == 1_000_000_000,
        ;
    }
}

/// Parses the decimal text of a fixed-point value.
#[verifier::rlimit(50)]
pub fn parse_fixed(s: &str) -> (r: Option<u64>)
    ensures
        r == fixed_val_of(s@),
{
    let n = s.unicode_len();
    let mut d: usize = 0;
    while d < n && s.get_char(d) != '.'
        invariant
            0 <= d <= n,
            n == s@.len(),
            forall|j: int| 0 <= j < d ==> s@[j] != '.',
        decreases n - d,
    {
        d += 1;
    }
    proof {
        lemma_dot_idx(s@);
        if d < n {
            assert(s@[d as int] == '.');
            assert(dot_idx(s@) == d) by {
                if dot_idx(s@) < d {
                    assert(s@[dot_idx(s@)] == '.');
                }
                if dot_idx(s@) > d {
                    assert(s@[d as int] != '.');
                }
            }
        } else {
            assert(dot_idx(s@) == n) by {
                if dot_idx(s@) < n {
                    assert(s@[dot_idx(s@)] == '.');
                }
            }
        }
    }
    if d == n {
        // no fractional part
        match parse_u64(s) {
            None => {
                proof {
                    if s@.len() >= 1 && all_digits(s@) {
                        lemma_dec_val_nonneg(s@);
                        assert(dec_val(s@) > u64::MAX);
                        assert(dec_val(s@) * PROB_SCALE >= dec_val(s@)) by (nonlinear_arith)
                            requires
                                dec_val(s@) >= 0,
                                PROB_SCALE >= 1,
                        ;
                    }
                }
                None
            },
            Some(v) => {
                if v > u64::MAX / PROB_SCALE {
                    proof {
                        lemma_dec_val_nonneg(s@);
                        assert(v == dec_val(s@));
                        assert(v * PROB_SCALE > u64::MAX) by (nonlinear_arith)
                            requires
                                v > u64::MAX / PROB_SCALE,
                                PROB_SCALE == 1_000_000_000,
                        ;
                        assert(dec_val(s@) * PROB_SCALE > u64::MAX);
                    }
                    None
                } else {
                    proof {
                        assert(v * PROB_SCALE <= u64::MAX) by (nonlinear_arith)
                            requires
                                v <= u64::MAX / PROB_SCALE,
                                PROB_SCALE == 1_000_000_000,
                        ;
                        assert(dot_idx(s@) == s@.len());
                        lemma_dec_val_nonneg(s@);
                        assert(s@.len() >= 1);
                        assert(all_digits(s@));
                        assert(v == dec_val(s@));
                        assert(fixed_val_of(s@) == Some((dec_val(s@) * PROB_SCALE) as u64));
                    }
                    Some(v * PROB_SCALE)
                }
            },
        }
    } else {
        let ghost ip_seq = s@.take(d as int);
        let ghost f_seq = s@.skip(d as int + 1);
        if n == 1 {
            // the string is just "."
            assert(ip_seq.len() + f_seq.len() == 0);
            return None;
        }
        // integer part
        let mut acc: u64 = 0;
        let mut overflow = false;
        let mut i: usize = 0;
        while i < d
            invariant
                0 <= i <= d <= n,
                d < n,
                n == s@.len(),
                dot_idx(s@) == d,
                ip_seq == s@.take(d as int),
                f_seq == s@.skip(d as int + 1),
                all_digits(ip_seq.take(i as int)),
                forall|j: int| 0 <= j < i ==> ip_seq[j] == s@[j],
                !overflow ==> acc == dec_val(ip_seq.take(i as int)),
                overflow ==> dec_val(ip_seq) > u64::MAX,
            decreases d - i,
        {
            let c = s.get_char(i);
            match char_to_digit(c) {
                None => {
                    assert(ip_seq[i as int] == s@[i as int]);
                    assert(!all_digits(ip_seq));
                    return None;
                },
                Some(dg) => {
                    proof {
                        assert(ip_seq.take(i + 1).drop_last() =~= ip_seq.take(i as int));
                        assert(ip_seq.take(i + 1).last() == ip_seq[i as int]);
                        assert(ip_seq[i as int] == s@[i as int]);
                    }
                    if !overflow {
                        if acc > (u64::MAX - dg) / 10 {
                            proof {
                                assert(acc * 10 + dg > u64::MAX) by (nonlinear_arith)
                                    requires
                                        acc > (u64::MAX - dg) / 10,
                                        dg < 10,
                                        acc >= 0,
                                ;
                                assert(dec_val(ip_seq.take(i + 1)) == acc * 10 + dg);
                                lemma_dec_val_prefix(ip_seq, i + 1);
                            }
                            overflow = true;
                        } else {
                            proof {
                                assert(acc * 10 + dg <= u64::MAX) by (nonlinear_arith)
                                    requires
                                        acc <= (u64::MAX - dg) / 10,
                                        dg < 10,
                                        acc >= 0,
                                ;
                                assert(dec_val(ip_seq.take(i + 1)) == acc * 10 + dg);
                            }
                            acc = acc * 10 + dg;
                        }
                    }
                    i += 1;
                },
            }
        }
        proof {
            assert(ip_seq.take(d as int) =~= ip_seq);
        }
        // fractional part
        let mut facc: u64 = 0;
        let mut fdigits: u64 = 0;
        let mut j: usize = d + 1;
        while j < n
            invariant
                d < j <= n,
                n == s@.len(),
                dot_idx(s@) == d,
                ip_seq == s@.take(d as int),
                f_seq == s@.skip(d as int + 1),
                all_digits(f_seq.take(j - d - 1)),
                fdigits == if j - d - 1 <= FRAC_DIGITS {
                    (j - d - 1) as u64
                } else {
                    FRAC_DIGITS
                },
                facc == dec_val(f_seq.take(if fdigits < FRAC_DIGITS {
                    fdigits as int
                } else {
                    FRAC_DIGITS as int
                })),
                facc < PROB_SCALE,
            decreases n - j,
        {
            let c = s.get_char(j);
            match char_to_digit(c) {
                None => {
                    proof {
                        assert(f_seq[j - d - 1] == s@[j as int]);
                        assert(!all_digits(f_seq));
                    }
                    return None;
                },
                Some(dg) => {
                    proof {
                        assert(f_seq[j - d - 1] == s@[j as int]);
                        assert(f_seq.take(j - d).drop_last() =~= f_seq.take(j - d - 1));
                        assert(f_seq.take(j - d).last() == f_seq[j - d - 1]);
                    }
                    if fdigits < FRAC_DIGITS {
                        proof {
                            let t = f_seq.take(fdigits as int);
                            assert(all_digits(t)) by {
                                assert(forall|k: int| 0 <= k < t.len() ==> #[trigger] t[k] == f_seq[k]);
                            }
                            lemma_dec_val_bound(t);
                            lemma_pow10_pos((FRAC_DIGITS - 1 - fdigits) as nat);
                            lemma_pow10_add(fdigits as nat, (FRAC_DIGITS - 1 - fdigits) as nat);
                            reveal_with_fuel(pow10, 11);
                            assert(pow10((FRAC_DIGITS - 1) as nat) == PROB_SCALE / 10);
                            assert(dec_val(t) * pow10((FRAC_DIGITS - 1 - fdigits) as nat) < pow10(
                                (FRAC_DIGITS - 1) as nat,
                            )) by (nonlinear_arith)
                                requires
                                    0 <= dec_val(t) < pow10(fdigits as nat),
                                    pow10((FRAC_DIGITS - 1 - fdigits) as nat) >= 1,
                                    pow10(fdigits as nat) * pow10((FRAC_DIGITS - 1 - fdigits) as nat)
                                        == pow10((FRAC_DIGITS - 1) as nat),
                            ;
                            assert(facc * pow10((FRAC_DIGITS - 1 - fdigits) as nat) < PROB_SCALE
                                / 10);
                            assert(facc <= facc * pow10((FRAC_DIGITS - 1 - fdigits) as nat))
                                by (nonlinear_arith)
                                requires
                                    facc >= 0,
                                    pow10((FRAC_DIGITS - 1 - fdigits) as nat) >= 1,
                            ;
                        }
                        facc = facc * 10 + dg;
                        fdigits += 1;
                    }
                    j += 1;
                },
            }
        }
        proof {
            assert(f_seq.take(n - d - 1) =~= f_seq);
        }
        // assemble: value in FRAC_DIGITS-place fixed point
        let fv: u64 = if fdigits < FRAC_DIGITS {
            proof {
                assert(fdigits == n - d - 1);
                assert(f_seq.len() == fdigits);
                assert(f_seq.take(fdigits as int) =~= f_seq);
                assert(pow10(0nat) == 1);
                assert(facc == dec_val(f_seq.take(fdigits as int)));
                assert(dec_val(f_seq.take(fdigits as int)) * 1 == dec_val(
                    f_seq.take(fdigits as int),
                ));
            }
            let mut k: u64 = fdigits;
            let mut scaled: u64 = facc;
            while k < FRAC_DIGITS
                invariant
                    fdigits <= k <= FRAC_DIGITS,
                    scaled == dec_val(f_seq.take(fdigits as int)) * pow10((k - fdigits) as nat),
                    scaled < PROB_SCALE,
                    all_digits(f_seq),
                    f_seq.len() == fdigits,
                decreases FRAC_DIGITS - k,
            {
                proof {
                    lemma_dec_val_bound(f_seq.take(fdigits as int));
                    lemma_pow10_add(fdigits as nat, (k + 1 - fdigits) as nat);
                    lemma_pow10_add(fdigits as nat, (k - fdigits) as nat);
                    reveal_with_fuel(pow10, 11);
                    let dv = dec_val(f_seq.take(fdigits as int));
                    assert(pow10((k + 1 - fdigits) as nat) == 10 * pow10((k - fdigits) as nat));
                    assert(dv * pow10((k + 1 - fdigits) as nat) == (dv * pow10(
                        (k - fdigits) as nat,
                    )) * 10) by (nonlinear_arith)
                        requires
                            pow10((k + 1 - fdigits) as nat) == 10 * pow10((k - fdigits) as nat),
                    ;
                    assert(dv * pow10((k + 1 - fdigits) as nat) < pow10(
                        (fdigits + (k + 1 - fdigits)) as nat,
                    )) by (nonlinear_arith)
                        requires
                            0 <= dv < pow10(fdigits as nat),
                            pow10((k + 1 - fdigits) as nat) >= 1,
                            pow10(fdigits as nat) * pow10((k + 1 - fdigits) as nat) == pow10(
                                (fdigits + (k + 1 - fdigits)) as nat,
                            ),
                    ;
                    lemma_pow10_pos((k + 1 - fdigits) as nat);
                    assert(pow10((fdigits + (k + 1 - fdigits)) as nat) == pow10((k + 1) as nat));
                    lemma_pow10_mono((k + 1) as nat, FRAC_DIGITS as nat);
                    assert(pow10(FRAC_DIGITS as nat) == PROB_SCALE);
                }
                scaled = scaled * 10;
                k += 1;
            }
            proof {
                assert(f_seq.take(fdigits as int) =~= f_seq);
            }
            scaled
        } else {
            proof {
                assert(frac_val(f_seq) == dec_val(f_seq.take(FRAC_DIGITS as int)));
            }
            facc
        };
        assert(fv == frac_val(f_seq));
        if overflow {
            proof {
                lemma_dec_val_nonneg(ip_seq);
                lemma_frac_val_bound(f_seq);
                assert(dec_val(ip_seq) * PROB_SCALE >= dec_val(ip_seq)) by (nonlinear_arith)
                    requires
                        dec_val(ip_seq) >= 0,
                        PROB_SCALE >= 1,
                ;
            }
            return None;
        }
        if acc > (u64::MAX - fv) / PROB_SCALE {
            proof {
                assert(acc * PROB_SCALE + fv > u64::MAX) by (nonlinear_arith)
                    requires
                        acc > ((u64::MAX - fv) as int) / (PROB_SCALE as int),
                        fv < PROB_SCALE,
                        PROB_SCALE == 1_000_000_000,
                        acc >= 0,
                ;
            }
            return None;
        }
        proof {
            assert(acc * PROB_SCALE + fv <= u64::MAX) by (nonlinear_arith)
                requires
                    acc <= ((u64::MAX - fv) as int) / (PROB_SCALE as int),
                    fv < PROB_SCALE,
                    PROB_SCALE == 1_000_000_000,
                    acc >= 0,
                    fv >= 0,
            ;
        }
        proof {
            assert(dot_idx(s@) == d);
            assert(d < n);
            assert(ip_seq.len() + f_seq.len() >= 1);
            assert(all_digits(ip_seq));
            assert(all_digits(f_seq));
            assert(acc == dec_val(ip_seq));
            assert(fv == frac_val(f_seq));
            assert(dec_val(ip_seq) * PROB_SCALE + frac_val(f_seq) <= u64::MAX);
            assert(fixed_val_of(s@) == Some((dec_val(ip_seq) * PROB_SCALE + frac_val(
                f_seq,
            )) as u64));
        }
        Some(acc * PROB_SCALE + fv)
    }
}

/// The scale is ten to the number of fractional digits.
pub proof fn lemma_pow10_frac()
    ensures
        pow10(FRAC_DIGITS as nat) == PROB_SCALE,
{
    reveal_with_fuel(pow10, 11);
}

pub proof fn lemma_pow10_mono(a: nat, b: nat)
    ensures
        a <= b ==> pow10(a) <= pow10(b),
    decreases b,
{
    if a < b {
        lemma_pow10_mono(a, (b - 1) as nat);
        lemma_pow10_pos((b - 1) as nat);
    }
}

} // verus!


