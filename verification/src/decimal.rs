//! Exact decimal magnitude values.
//!
//! A magnitude is held as a fixed-point integer counting units of `10^-7`
//! (`4.2` is held as `42_000_000`).  This module defines the decimal text
//! grammar for magnitudes, a verified parser from bytes to the fixed-point
//! value, and a verified renderer back to canonical decimal text, together
//! with the round-trip proof connecting the two.
use vstd::prelude::*;

verus! {

/// Ten raised to `e`, as a mathematical integer.
pub open spec fn pow10(e: nat) -> int
    decreases e,
{
    if e == 0 {
        1
    } else {
        10 * pow10((e - 1) as nat)
    }
}

/// The byte is an ASCII digit `'0'..='9'`.
pub open spec fn is_ascii_digit(c: u8) -> bool {
    48 <= c && c <= 57
}

/// Numeric value of an ASCII digit byte.
pub open spec fn digit_val(c: u8) -> int {
    c as int - 48
}

/// Value contributed by the digits after the decimal point, in units of
/// `10^-7`, with `w` significant positions still available.  The first digit
/// weighs `10^(w-1)` units.  `None` when a byte is not a digit or when a
/// nonzero digit appears beyond the last representable position.
pub open spec fn frac_value_e7(s: Seq<u8>, w: nat) -> Option<int>
    decreases s.len(),
{
    if s.len() == 0 {
        Some(0)
    } else if !is_ascii_digit(s[0]) {
        None
    } else if w > 0 {
        match frac_value_e7(s.drop_first(), (w - 1) as nat) {
            Some(r) => Some(digit_val(s[0]) * pow10((w - 1) as nat) + r),
            None => None,
        }
    } else if s[0] == 48 {
        frac_value_e7(s.drop_first(), 0)
    } else {
        None
    }
}

/// Value of the rest of an unsigned decimal after some integer digits with
/// accumulated value `acc`: more integer digits, then an optional `'.'` and
/// fraction.  The result is in units of `10^-7`.  `None` on a stray byte or
/// when the integer part would reach `10^11`.
pub open spec fn int_frac_value_e7(s: Seq<u8>, acc: int) -> Option<int>
    decreases s.len(),
{
    if s.len() == 0 {
        Some(acc * 10_000_000)
    } else if s[0] == 46 {
        match frac_value_e7(s.drop_first(), 7) {
            Some(f) => Some(acc * 10_000_000 + f),
            None => None,
        }
    } else if is_ascii_digit(s[0]) {
        if acc < 10_000_000_000 {
            int_frac_value_e7(s.drop_first(), acc * 10 + digit_val(s[0]))
        } else {
            None
        }
    } else {
        None
    }
}

/// Value of an unsigned decimal `digits [ '.' digits ]`, in units of `10^-7`.
pub open spec fn parse_mag_nonneg(s: Seq<u8>) -> Option<int> {
    if s.len() >= 1 && is_ascii_digit(s[0]) {
        int_frac_value_e7(s.drop_first(), digit_val(s[0]))
    } else {
        None
    }
}

/// Value of a decimal magnitude text `[ '-' ] digits [ '.' digits ]`, in
/// units of `10^-7`.  `None` when the text is not such a decimal or its
/// value cannot be held exactly at this scale.
pub open spec fn parse_mag_e7(s: Seq<u8>) -> Option<int> {
    if s.len() >= 1 && s[0] == 45 {
        match parse_mag_nonneg(s.drop_first()) {
            Some(v) => Some(-v),
            None => None,
        }
    } else {
        parse_mag_nonneg(s)
    }
}

/// Decimal digits of `n`, most significant first.
pub open spec fn u64_digits(n: nat) -> Seq<u8>
    decreases n,
{
    if n < 10 {
        seq![(48 + n) as u8]
    } else {
        u64_digits(n / 10).push((48 + n % 10) as u8)
    }
}

/// The `w` low decimal digits of `n`, zero-padded on the left.
pub open spec fn padded_digits(n: nat, w: nat) -> Seq<u8>
    decreases w,
{
    if w == 0 {
        Seq::empty()
    } else {
        padded_digits(n / 10, (w - 1) as nat).push((48 + n % 10) as u8)
    }
}

/// Drops trailing decimal zeros from a `w`-digit fraction `f`, keeping at
/// least one digit.  Returns the reduced fraction and its width.
pub open spec fn reduce_frac(f: nat, w: nat) -> (nat, nat)
    decreases w,
{
    if w > 1 && f % 10 == 0 {
        reduce_frac(f / 10, (w - 1) as nat)
    } else {
        (f, w)
    }
}

/// Canonical decimal text of a nonnegative value `a` in units of `10^-7`:
/// integer part without leading zeros, then, if the fraction is nonzero, a
/// `'.'` and the fraction without trailing zeros.
pub open spec fn render_nonneg_e7(a: nat) -> Seq<u8> {
    if a % 10_000_000 == 0 {
        u64_digits(a / 10_000_000)
    } else {
        u64_digits(a / 10_000_000) + seq![46u8] + padded_digits(
            reduce_frac(a % 10_000_000, 7).0,
            reduce_frac(a % 10_000_000, 7).1,
        )
    }
}

/// Canonical decimal text of a magnitude `m` in units of `10^-7`.
pub open spec fn render_mag_e7(m: int) -> Seq<u8> {
    if m < 0 {
        seq![45u8] + render_nonneg_e7((-m) as nat)
    } else {
        render_nonneg_e7(m as nat)
    }
}

/// An executable option holds exactly the value of a spec-level option.
pub open spec fn opt_eq(r: Option<i64>, v: Option<int>) -> bool {
    match (r, v) {
        (Some(a), Some(b)) => a == b,
        (None, None) => true,
        _ => false,
    }
}

proof fn lemma_pow10_pos(e: nat)
    ensures
        pow10(e) >= 1,
    decreases e,
{
    if e > 0 {
        lemma_pow10_pos((e - 1) as nat);
    }
}

proof fn lemma_pow10_small(e: nat)
    requires
        e <= 7,
    ensures
        pow10(e) <= 10_000_000,
{
    reveal_with_fuel(pow10, 9);
    if e == 0 {
    } else if e == 1 {
    } else if e == 2 {
    } else if e == 3 {
    } else if e == 4 {
    } else if e == 5 {
    } else if e == 6 {
    } else {
        assert(e == 7);
    }
}

fn pow10_i64(e: u32) -> (r: i64)
    requires
        e <= 7,
    ensures
        r == pow10(e as nat),
{
    let mut r: i64 = 1;
    let mut i: u32 = 0;
    while i < e
        invariant
            i <= e <= 7,
            r == pow10(i as nat),
        decreases e - i,
    {
        proof {
            lemma_pow10_pos(i as nat);
            lemma_pow10_small(i as nat);
        }
        r = r * 10;
        i = i + 1;
    }
    r
}

/// Fraction digits beyond position `w` are all parsed, bounded by `10^w`.
proof fn lemma_frac_bound(s: Seq<u8>, w: nat)
    ensures
        frac_value_e7(s, w) matches Some(f) ==> 0 <= f < pow10(w),
    decreases s.len(),
{
    lemma_pow10_pos(w);
    if s.len() > 0 && is_ascii_digit(s[0]) {
        if w > 0 {
            lemma_frac_bound(s.drop_first(), (w - 1) as nat);
            let rec = frac_value_e7(s.drop_first(), (w - 1) as nat);
            if rec is Some {
                let r = rec.unwrap();
                assert(digit_val(s[0]) * pow10((w - 1) as nat) + r < pow10(w)) by {
                    assert(digit_val(s[0]) <= 9);
                    assert(digit_val(s[0]) * pow10((w - 1) as nat) <= 9 * pow10((w - 1) as nat))
                        by (nonlinear_arith)
                        requires
                            digit_val(s[0]) <= 9,
                            pow10((w - 1) as nat) >= 1,
                    ;
                    assert(pow10(w) == 10 * pow10((w - 1) as nat));
                }
            }
        } else {
            lemma_frac_bound(s.drop_first(), 0);
        }
    }
}

/// The parsed value stays below `10^18` when the seed accumulator is in
/// range.
proof fn lemma_int_frac_bound(s: Seq<u8>, acc: int)
    requires
        0 <= acc < 100_000_000_000,
    ensures
        int_frac_value_e7(s, acc) matches Some(v) ==> 0 <= v < 1_000_000_000_000_000_000,
    decreases s.len(),
{
    if s.len() == 0 {
    } else if s[0] == 46 {
        lemma_frac_bound(s.drop_first(), 7);
        lemma_pow10_small(7);
    } else if is_ascii_digit(s[0]) {
        if acc < 10_000_000_000 {
            lemma_int_frac_bound(s.drop_first(), acc * 10 + digit_val(s[0]));
        }
    }
}

/// Every successfully parsed magnitude lies strictly within `10^18` units.
pub proof fn lemma_parse_mag_bound(s: Seq<u8>)
    ensures
        parse_mag_e7(s) matches Some(v) ==> -1_000_000_000_000_000_000 < v
            < 1_000_000_000_000_000_000,
{
    if s.len() >= 1 && s[0] == 45 {
        let t = s.drop_first();
        if t.len() >= 1 && is_ascii_digit(t[0]) {
            lemma_int_frac_bound(t.drop_first(), digit_val(t[0]));
        }
    } else {
        if s.len() >= 1 && is_ascii_digit(s[0]) {
            lemma_int_frac_bound(s.drop_first(), digit_val(s[0]));
        }
    }
}

fn frac_exec(s: &Vec<u8>, i: usize, w: u32) -> (r: Option<i64>)
    requires
        i <= s.len(),
        w <= 7,
    ensures
        opt_eq(r, frac_value_e7(s@.skip(i as int), w as nat)),
    decreases s.len() - i,
{
    let ghost sp = s@.skip(i as int);
    if i == s.len() {
        assert(sp.len() == 0);
        Some(0)
    } else {
        let c = s[i];
        assert(sp[0] == c);
        assert(sp.drop_first() =~= s@.skip(i as int + 1));
        if !(48 <= c && c <= 57) {
            None
        } else if w > 0 {
            let p = pow10_i64(w - 1);
            proof {
                lemma_pow10_pos((w - 1) as nat);
                lemma_pow10_small((w - 1) as nat);
                lemma_frac_bound(s@.skip(i as int + 1), (w - 1) as nat);
            }
            match frac_exec(s, i + 1, w - 1) {
                Some(r2) => {
                    proof {
                        assert(0 <= r2 < p);
                        assert((c - 48) as int * p <= 9 * p) by (nonlinear_arith)
                            requires
                                0 <= (c - 48) as int <= 9,
                                p >= 1,
                        ;
                    }
                    Some(((c - 48) as i64) * p + r2)
                },
                None => None,
            }
        } else if c == 48 {
            frac_exec(s, i + 1, 0)
        } else {
            None
        }
    }
}

fn int_frac_exec(s: &Vec<u8>, i: usize, acc: i64) -> (r: Option<i64>)
    requires
        i <= s.len(),
        0 <= acc < 100_000_000_000,
    ensures
        opt_eq(r, int_frac_value_e7(s@.skip(i as int), acc as int)),
    decreases s.len() - i,
{
    let ghost sp = s@.skip(i as int);
    if i == s.len() {
        assert(sp.len() == 0);
        Some(acc * 10_000_000)
    } else {
        let c = s[i];
        assert(sp[0] == c);
        assert(sp.drop_first() =~= s@.skip(i as int + 1));
        if c == 46 {
            proof {
                lemma_frac_bound(s@.skip(i as int + 1), 7);
                lemma_pow10_small(7);
            }
            match frac_exec(s, i + 1, 7) {
                Some(f) => Some(acc * 10_000_000 + f),
                None => None,
            }
        } else if 48 <= c && c <= 57 {
            if acc < 10_000_000_000 {
                int_frac_exec(s, i + 1, acc * 10 + ((c - 48) as i64))
            } else {
                None
            }
        } else {
            None
        }
    }
}

/// Parses a decimal magnitude text into units of `10^-7`.
pub fn parse_mag_e7_bytes(s: &Vec<u8>) -> (r: Option<i64>)
    ensures
        opt_eq(r, parse_mag_e7(s@)),
{
    if s.len() == 0 {
        return None;
    }
    let c0 = s[0];
    if c0 == 45 {
        let ghost t = s@.drop_first();
        assert(t =~= s@.skip(1));
        if s.len() >= 2 {
            let c1 = s[1];
            assert(t[0] == c1);
            assert(t.drop_first() =~= s@.skip(2));
            if 48 <= c1 && c1 <= 57 {
                proof {
                    lemma_int_frac_bound(s@.skip(2), digit_val(c1));
                }
                match int_frac_exec(s, 2, (c1 - 48) as i64) {
                    Some(v) => Some(-v),
                    None => None,
                }
            } else {
                None
            }
        } else {
            None
        }
    } else if 48 <= c0 && c0 <= 57 {
        assert(s@.drop_first() =~= s@.skip(1));
        int_frac_exec(s, 1, (c0 - 48) as i64)
    } else {
        None
    }
}

fn u64_digits_exec(n: u64) -> (r: Vec<u8>)
    ensures
        r@ == u64_digits(n as nat),
    decreases n,
{
    if n < 10 {
        let mut v: Vec<u8> = Vec::new();
        v.push(48 + n as u8);
        assert(v@ =~= u64_digits(n as nat));
        v
    } else {
        let mut v = u64_digits_exec(n / 10);
        v.push(48 + (n % 10) as u8);
        assert(v@ =~= u64_digits(n as nat));
        v
    }
}

fn padded_digits_exec(n: u64, w: u32) -> (r: Vec<u8>)
    ensures
        r@ == padded_digits(n as nat, w as nat),
    decreases w,
{
    if w == 0 {
        let v: Vec<u8> = Vec::new();
        assert(v@ =~= padded_digits(n as nat, 0));
        v
    } else {
        let mut v = padded_digits_exec(n / 10, w - 1);
        v.push(48 + (n % 10) as u8);
        assert(v@ =~= padded_digits(n as nat, w as nat));
        v
    }
}

fn reduce_frac_exec(f: u64, w: u32) -> (r: (u64, u32))
    requires
        w >= 1,
    ensures
        (r.0 as nat, r.1 as nat) == reduce_frac(f as nat, w as nat),
    decreases w,
{
    if w > 1 && f % 10 == 0 {
        reduce_frac_exec(f / 10, w - 1)
    } else {
        (f, w)
    }
}

fn render_nonneg_exec(a: u64) -> (r: Vec<u8>)
    requires
        a < 1_000_000_000_000_000_000,
    ensures
        r@ == render_nonneg_e7(a as nat),
{
    let ip = a / 10_000_000;
    let f = a % 10_000_000;
    let mut v = u64_digits_exec(ip);
    if f != 0 {
        v.push(46);
        let (rf, rw) = reduce_frac_exec(f, 7);
        let mut tail = padded_digits_exec(rf, rw);
        v.append(&mut tail);
        assert(v@ =~= render_nonneg_e7(a as nat));
    } else {
        assert(v@ =~= render_nonneg_e7(a as nat));
    }
    v
}

/// Renders a magnitude in units of `10^-7` as canonical decimal text.
pub fn render_mag_e7_bytes(m: i64) -> (r: Vec<u8>)
    requires
        -1_000_000_000_000_000_000 < m < 1_000_000_000_000_000_000,
    ensures
        r@ == render_mag_e7(m as int),
{
    if m < 0 {
        let mut v: Vec<u8> = Vec::new();
        v.push(45);
        let mut tail = render_nonneg_exec((-m) as u64);
        v.append(&mut tail);
        assert(v@ =~= render_mag_e7(m as int));
        v
    } else {
        render_nonneg_exec(m as u64)
    }
}

/// How many decimal digits `u64_digits(n)` holds.
pub open spec fn num_digits(n: nat) -> nat
    decreases n,
{
    if n < 10 {
        1
    } else {
        1 + num_digits(n / 10)
    }
}

/// Every byte of `u64_digits(n)` is a digit, and the first is nonzero
/// unless `n` itself is a single digit.
proof fn lemma_u64_digits_props(n: nat)
    ensures
        u64_digits(n).len() == num_digits(n),
        forall|i: int|
            0 <= i < u64_digits(n).len() ==> is_ascii_digit(#[trigger] u64_digits(n)[i]),
        n >= 10 ==> u64_digits(n)[0] != 48,
        n < 10 ==> u64_digits(n) =~= seq![(48 + n) as u8],
    decreases n,
{
    if n >= 10 {
        lemma_u64_digits_props(n / 10);
        assert(u64_digits(n)[0] == u64_digits(n / 10)[0]);
    }
}

/// Every byte of `padded_digits(n, w)` is a digit.
proof fn lemma_padded_digits_props(n: nat, w: nat)
    ensures
        padded_digits(n, w).len() == w,
        forall|i: int|
            0 <= i < w ==> is_ascii_digit(#[trigger] padded_digits(n, w)[i]),
    decreases w,
{
    if w > 0 {
        lemma_padded_digits_props(n / 10, (w - 1) as nat);
    }
}

/// Consuming the digit run of `n` multiplies the accumulator by
/// `10^num_digits(n)` and adds `n`, as long as the result stays below
/// `10^11`.
proof fn lemma_int_digits_absorb(n: nat, rest: Seq<u8>, acc: int)
    requires
        0 <= acc,
        acc * pow10(num_digits(n)) + n < 100_000_000_000,
    ensures
        int_frac_value_e7(u64_digits(n) + rest, acc) == int_frac_value_e7(
            rest,
            acc * pow10(num_digits(n)) + n,
        ),
    decreases n,
{
    lemma_u64_digits_props(n);
    if n < 10 {
        let s = u64_digits(n) + rest;
        assert(s[0] == (48 + n) as u8);
        assert(is_ascii_digit(s[0]) && s[0] != 46);
        assert(pow10(1) == 10) by {
            reveal_with_fuel(pow10, 2);
        }
        assert(num_digits(n) == 1);
        assert(acc * 10 + n < 100_000_000_000);
        assert(acc < 10_000_000_000);
        assert(s.drop_first() =~= rest);
        assert(digit_val(s[0]) == n);
    } else {
        let nd = num_digits(n);
        let d = (48 + n % 10) as u8;
        assert(u64_digits(n) + rest =~= u64_digits(n / 10) + (seq![d] + rest));
        let acc2 = acc * pow10((nd - 1) as nat) + n / 10;
        assert(acc2 * 10 + n % 10 == acc * pow10(nd) + n) by (nonlinear_arith)
            requires
                acc2 == acc * pow10((nd - 1) as nat) + n / 10,
                pow10(nd) == 10 * pow10((nd - 1) as nat),
                n == (n / 10) * 10 + n % 10,
        ;
        assert(pow10(nd) == 10 * pow10((nd - 1) as nat));
        assert(n % 10 >= 0 && acc2 >= 0) by {
            lemma_pow10_pos((nd - 1) as nat);
            assert(acc * pow10((nd - 1) as nat) >= 0) by (nonlinear_arith)
                requires
                    acc >= 0,
                    pow10((nd - 1) as nat) >= 1,
            ;
        }
        assert(acc2 * pow10(1) + n / 10 <= acc2 * 10 + n) by {
            assert(pow10(1) == 10) by {
                reveal_with_fuel(pow10, 2);
            }
            assert(n / 10 <= n);
        }
        lemma_int_digits_absorb(n / 10, seq![d] + rest, acc);
        let s2 = seq![d] + rest;
        assert(s2[0] == d);
        assert(is_ascii_digit(d) && d != 46);
        assert(acc2 < 10_000_000_000);
        assert(s2.drop_first() =~= rest);
        assert(digit_val(d) == n % 10);
        assert(int_frac_value_e7(s2, acc2) == int_frac_value_e7(rest, acc2 * 10 + digit_val(d)));
    }
}

/// A decimal text that opens with the digit run of `n < 10^11` parses like
/// its remainder seeded with accumulator `n`.
proof fn lemma_parse_digits_start(n: nat, rest: Seq<u8>)
    requires
        n < 100_000_000_000,
    ensures
        parse_mag_nonneg(u64_digits(n) + rest) == int_frac_value_e7(rest, n as int),
{
    lemma_u64_digits_props(n);
    let s = u64_digits(n) + rest;
    assert(s[0] == u64_digits(n)[0]);
    assert(is_ascii_digit(s[0]) && s[0] != 46);
    lemma_pow10_pos(num_digits(n));
    lemma_int_digits_absorb(n, rest, 0);
    assert(0 * pow10(num_digits(n)) + n == n) by (nonlinear_arith);
    assert(int_frac_value_e7(s, 0) == int_frac_value_e7(rest, n as int));
    assert(int_frac_value_e7(s, 0) == int_frac_value_e7(s.drop_first(), 0 * 10 + digit_val(s[0])));
    assert(parse_mag_nonneg(s) == int_frac_value_e7(s.drop_first(), digit_val(s[0])));
}

/// Consuming the `w` padded digits of `f` contributes `f * 10^(cap-w)`
/// fraction units.
proof fn lemma_frac_digits_absorb(f: nat, w: nat, rest: Seq<u8>, cap: nat)
    requires
        w <= cap,
        f < pow10(w),
    ensures
        frac_value_e7(padded_digits(f, w) + rest, cap) == match frac_value_e7(
            rest,
            (cap - w) as nat,
        ) {
            Some(r) => Some(f * pow10((cap - w) as nat) + r),
            None => None,
        },
    decreases w,
{
    lemma_padded_digits_props(f, w);
    if w == 0 {
        assert(pow10(0) == 1);
        assert(f == 0);
        assert(padded_digits(f, 0) + rest =~= rest);
        match frac_value_e7(rest, cap) {
            Some(r) => {
                assert(f * pow10(cap) + r == r) by (nonlinear_arith)
                    requires
                        f == 0,
                ;
            },
            None => {},
        }
    } else {
        let d = (48 + f % 10) as u8;
        assert(padded_digits(f, w) + rest =~= padded_digits(f / 10, (w - 1) as nat) + (seq![d]
            + rest));
        assert(f / 10 < pow10((w - 1) as nat)) by (nonlinear_arith)
            requires
                f < pow10(w),
                pow10(w) == 10 * pow10((w - 1) as nat),
                pow10((w - 1) as nat) >= 1,
        ;
        lemma_pow10_pos((w - 1) as nat);
        lemma_frac_digits_absorb(f / 10, (w - 1) as nat, seq![d] + rest, cap);
        let s2 = seq![d] + rest;
        assert(s2[0] == d);
        assert(is_ascii_digit(d));
        let cw = (cap - w) as nat;
        assert((cap - (w - 1)) as nat == cw + 1);
        assert(cw + 1 > 0);
        assert(s2.drop_first() =~= rest);
        assert(frac_value_e7(s2, cw + 1) == match frac_value_e7(rest, cw) {
            Some(r2) => Some(digit_val(d) * pow10(cw) + r2),
            None => None,
        });
        match frac_value_e7(rest, cw) {
            Some(r2) => {
                assert((f / 10) * pow10(cw + 1) + (digit_val(d) * pow10(cw) + r2) == f * pow10(cw)
                    + r2) by (nonlinear_arith)
                    requires
                        digit_val(d) == f % 10,
                        pow10(cw + 1) == 10 * pow10(cw),
                        f == (f / 10) * 10 + f % 10,
                ;
            },
            None => {},
        }
    }
}

/// Dropping trailing zeros keeps the fraction's value: the reduced pair
/// `(rf, rw)` satisfies `rf * 10^(w-rw) == f`.
proof fn lemma_reduce_frac(f: nat, w: nat)
    requires
        1 <= w,
        f < pow10(w),
    ensures
        ({
            let (rf, rw) = reduce_frac(f, w);
            1 <= rw <= w && rf < pow10(rw) && rf * pow10((w - rw) as nat) == f
        }),
    decreases w,
{
    if w > 1 && f % 10 == 0 {
        assert(f / 10 < pow10((w - 1) as nat)) by (nonlinear_arith)
            requires
                f < pow10(w),
                pow10(w) == 10 * pow10((w - 1) as nat),
                pow10((w - 1) as nat) >= 1,
        ;
        lemma_reduce_frac(f / 10, (w - 1) as nat);
        let (rf, rw) = reduce_frac(f / 10, (w - 1) as nat);
        assert(rf * pow10((w - rw) as nat) == f) by (nonlinear_arith)
            requires
                rf * pow10((w - 1 - rw) as nat) == f / 10,
                pow10((w - rw) as nat) == 10 * pow10((w - 1 - rw) as nat),
                f == (f / 10) * 10,
        ;
    } else {
        assert(pow10(0) == 1);
        assert(f * pow10(0) == f) by (nonlinear_arith);
    }
}

/// Rendering a nonnegative value and parsing the text gives the value back.
proof fn lemma_roundtrip_nonneg(a: nat)
    requires
        a < 1_000_000_000_000_000_000,
    ensures
        parse_mag_nonneg(render_nonneg_e7(a)) == Some(a as int),
{
    let ip = a / 10_000_000;
    let f = a % 10_000_000;
    assert(ip < 100_000_000_000);
    if f == 0 {
        assert(render_nonneg_e7(a) =~= u64_digits(ip) + Seq::<u8>::empty());
        lemma_parse_digits_start(ip, Seq::<u8>::empty());
        assert(int_frac_value_e7(Seq::<u8>::empty(), ip as int) == Some(ip as int * 10_000_000));
        assert(ip as int * 10_000_000 == a);
    } else {
        lemma_pow10_small(7);
        assert(pow10(7) == 10_000_000) by {
            reveal_with_fuel(pow10, 9);
        }
        lemma_reduce_frac(f, 7);
        let (rf, rw) = reduce_frac(f, 7);
        let tail = seq![46u8] + padded_digits(rf, rw);
        assert(render_nonneg_e7(a) =~= u64_digits(ip) + tail);
        lemma_parse_digits_start(ip, tail);
        assert(tail[0] == 46);
        assert(tail.drop_first() =~= padded_digits(rf, rw) + Seq::<u8>::empty());
        lemma_frac_digits_absorb(rf, rw, Seq::<u8>::empty(), 7);
        assert(frac_value_e7(Seq::<u8>::empty(), (7 - rw) as nat) == Some(0int));
        assert(rf * pow10((7 - rw) as nat) + 0 == f);
        assert(int_frac_value_e7(tail, ip as int) == Some(ip as int * 10_000_000 + f));
        assert(ip as int * 10_000_000 + f == a);
    }
}

/// Round trip: parsing the canonical text of a magnitude recovers it
/// exactly.
pub proof fn lemma_parse_render_roundtrip(m: int)
    requires
        -1_000_000_000_000_000_000 < m < 1_000_000_000_000_000_000,
    ensures
        parse_mag_e7(render_mag_e7(m)) == Some(m),
{
    if m < 0 {
        let a = (-m) as nat;
        lemma_roundtrip_nonneg(a);
        let s = seq![45u8] + render_nonneg_e7(a);
        assert(s[0] == 45);
        assert(s.len() >= 1);
        assert(s.drop_first() =~= render_nonneg_e7(a));
    } else {
        let a = m as nat;
        lemma_roundtrip_nonneg(a);
        let s = render_nonneg_e7(a);
        lemma_u64_digits_props(a / 10_000_000);
        assert(s[0] == u64_digits(a / 10_000_000)[0]);
        assert(is_ascii_digit(s[0]));
        assert(s[0] != 45);
    }
}

/// Every byte of `s` is an ASCII digit.
pub open spec fn all_ascii_digits(s: Seq<u8>) -> bool {
    forall|i: int| 0 <= i < s.len() ==> is_ascii_digit(#[trigger] s[i])
}

/// A JSON integer part: one or more digits, no leading zero unless the part
/// is the single digit `0`.
pub open spec fn json_int_part_wf(s: Seq<u8>) -> bool {
    s.len() >= 1 && all_ascii_digits(s) && (s[0] != 48 || s.len() == 1)
}

/// A JSON fraction part: absent, or `'.'` followed by one or more digits.
pub open spec fn json_frac_part_wf(s: Seq<u8>) -> bool {
    s.len() == 0 || (s[0] == 46 && s.len() >= 2 && all_ascii_digits(s.drop_first()))
}

/// An unsigned number of the JSON grammar, without an exponent part.
pub open spec fn json_unsigned_wf(s: Seq<u8>) -> bool {
    exists|i: int|
        1 <= i <= s.len() && #[trigger] json_int_part_wf(s.subrange(0, i)) && json_frac_part_wf(
            s.subrange(i, s.len() as int),
        )
}

/// A number of the JSON grammar (optional `'-'`, integer part, optional
/// fraction), without an exponent part.
pub open spec fn json_number_wf(s: Seq<u8>) -> bool {
    if s.len() >= 1 && s[0] == 45 {
        json_unsigned_wf(s.drop_first())
    } else {
        json_unsigned_wf(s)
    }
}

proof fn lemma_render_nonneg_json_wf(a: nat)
    requires
        a < 1_000_000_000_000_000_000,
    ensures
        json_unsigned_wf(render_nonneg_e7(a)),
{
    let ip = a / 10_000_000;
    let f = a % 10_000_000;
    lemma_u64_digits_props(ip);
    let d = u64_digits(ip);
    if f == 0 {
        let s = render_nonneg_e7(a);
        assert(s.subrange(0, d.len() as int) =~= d);
        assert(s.subrange(d.len() as int, s.len() as int) =~= Seq::<u8>::empty());
        assert(json_int_part_wf(s.subrange(0, d.len() as int)));
        assert(1 <= d.len() <= s.len());
    } else {
        assert(pow10(7) == 10_000_000) by {
            reveal_with_fuel(pow10, 9);
        }
        lemma_reduce_frac(f, 7);
        let (rf, rw) = reduce_frac(f, 7);
        lemma_padded_digits_props(rf, rw);
        let s = render_nonneg_e7(a);
        assert(s.subrange(0, d.len() as int) =~= d);
        let tail = s.subrange(d.len() as int, s.len() as int);
        assert(tail =~= seq![46u8] + padded_digits(rf, rw));
        assert(tail[0] == 46);
        assert(tail.len() == 1 + rw >= 2);
        assert(tail.drop_first() =~= padded_digits(rf, rw));
        assert(json_int_part_wf(s.subrange(0, d.len() as int)));
        assert(json_frac_part_wf(tail));
        assert(1 <= d.len() <= s.len());
    }
}

/// The canonical text of a magnitude is never the two-byte token `-0`:
/// zero renders as `0`, and a negative magnitude has a nonzero digit.
pub proof fn lemma_render_not_neg_zero(m: int)
    requires
        -1_000_000_000_000_000_000 < m < 1_000_000_000_000_000_000,
    ensures
        render_mag_e7(m) != seq![45u8, 48u8],
{
    let neg0 = seq![45u8, 48u8];
    assert(neg0.len() == 2 && neg0[0] == 45 && neg0[1] == 48);
    if m >= 0 {
        let a = m as nat;
        lemma_u64_digits_props(a / 10_000_000);
        let s = render_mag_e7(m);
        assert(s[0] == u64_digits(a / 10_000_000)[0]);
        assert(is_ascii_digit(s[0]) && s[0] != 45);
    } else {
        let a = (-m) as nat;
        let ip = a / 10_000_000;
        let f = a % 10_000_000;
        let body = render_nonneg_e7(a);
        lemma_u64_digits_props(ip);
        if seq![45u8] + body == neg0 {
            assert(body =~= seq![48u8]);
            assert(body.len() == 1);
            if f == 0 {
                if ip >= 10 {
                    lemma_u64_digits_props(ip / 10);
                    assert(u64_digits(ip).len() >= 2);
                } else {
                    assert(body == seq![(48 + ip) as u8]);
                    assert((48 + ip) as u8 == 48);
                    assert(ip == 0);
                    assert(a == ip * 10_000_000 + f);
                    assert(a == 0);
                }
            } else {
                assert(pow10(7) == 10_000_000) by {
                    reveal_with_fuel(pow10, 9);
                }
                lemma_reduce_frac(f, 7);
                let (rf, rw) = reduce_frac(f, 7);
                lemma_padded_digits_props(rf, rw);
                assert(body.len() == u64_digits(ip).len() + 1 + rw);
                assert(body.len() >= 3);
            }
        }
    }
}

/// The canonical text of a magnitude is a number of the JSON grammar.
pub proof fn lemma_render_json_wf(m: int)
    requires
        -1_000_000_000_000_000_000 < m < 1_000_000_000_000_000_000,
    ensures
        json_number_wf(render_mag_e7(m)),
{
    if m < 0 {
        let a = (-m) as nat;
        lemma_render_nonneg_json_wf(a);
        let s = seq![45u8] + render_nonneg_e7(a);
        assert(s[0] == 45);
        assert(s.drop_first() =~= render_nonneg_e7(a));
    } else {
        let a = m as nat;
        lemma_render_nonneg_json_wf(a);
        lemma_u64_digits_props(a / 10_000_000);
        let s = render_nonneg_e7(a);
        assert(s[0] == u64_digits(a / 10_000_000)[0]);
        assert(is_ascii_digit(s[0]) && s[0] != 45);
    }
}

} // verus!
