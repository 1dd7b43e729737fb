use vstd::prelude::*;
use vstd::string::StrSliceExecFns;
use vstd::string::StringExecFns;

use crate::error::DecLimiterError;
use crate::limiter::ProcessPair;

verus! {

/// Datarate values, in bits per second.
pub type Datarate = u64;

// ---------------------------------------------------------------------------
// Decimal digits
// ---------------------------------------------------------------------------

/// `c` is one of the ASCII digits `0` to `9`.
pub open spec fn is_digit(c: char) -> bool {
    '0' <= c && c <= '9'
}

/// The value of the ASCII digit `c`.
pub open spec fn digit_value(c: char) -> nat {
    (c as int - '0' as int) as nat
}

/// `10` to the power `n`.
pub open spec fn pow10(n: nat) -> nat
    decreases n,
{
    if n == 0 {
        1
    } else {
        10 * pow10((n - 1) as nat)
    }
}

/// The number that the digit string `s` writes in base ten.
pub open spec fn digits_value(s: Seq<char>) -> nat
    decreases s.len(),
{
    if s.len() == 0 {
        0
    } else {
        digits_value(s.drop_last()) * 10 + digit_value(s.last())
    }
}

/// Every character of `s` is a digit.
pub open spec fn all_digits(s: Seq<char>) -> bool {
    forall|i: int| 0 <= i < s.len() ==> is_digit(#[trigger] s[i])
}

/// The length of the run of digits at the start of `s`.
pub open spec fn digit_run(s: Seq<char>) -> nat
    decreases s.len(),
{
    if s.len() > 0 && is_digit(s[0]) {
        1 + digit_run(s.drop_first())
    } else {
        0
    }
}

/// `x`, or `u64::MAX` where `x` does not fit in a `u64`.
pub open spec fn capped(x: nat) -> nat {
    if x > u64::MAX {
        u64::MAX as nat
    } else {
        x
    }
}

pub proof fn lemma_pow10_positive(n: nat)
    ensures
        pow10(n) >= 1,
    decreases n,
{
    if n > 0 {
        lemma_pow10_positive((n - 1) as nat);
    }
}

pub proof fn lemma_pow10_add(a: nat, b: nat)
    ensures
        pow10(a + b) == pow10(a) * pow10(b),
    decreases a,
{
    if a > 0 {
        lemma_pow10_add((a - 1) as nat, b);
        assert(pow10(a + b) == 10 * pow10(((a - 1) + b) as nat));
        assert(pow10(a) == 10 * pow10((a - 1) as nat));
        let p = pow10((a - 1) as nat);
        let q = pow10(b);
        assert(10 * (p * q) == (10 * p) * q) by (nonlinear_arith);
        assert(pow10(a) * pow10(b) == (10 * p) * q);
        assert(pow10(a + b) == 10 * (p * q));
    } else {
        assert(pow10(a) == 1);
        assert(pow10(a) * pow10(b) == pow10(b)) by (nonlinear_arith)
            requires
                pow10(a) == 1,
        ;
    }
}

pub proof fn lemma_pow10_monotone(a: nat, b: nat)
    requires
        a <= b,
    ensures
        pow10(a) <= pow10(b),
    decreases b,
{
    if a < b {
        lemma_pow10_monotone(a, (b - 1) as nat);
        lemma_pow10_positive((b - 1) as nat);
    }
}

/// A digit string of length `n` writes a number below `10^n`.
pub proof fn lemma_digits_value_bound(s: Seq<char>)
    requires
        all_digits(s),
    ensures
        digits_value(s) < pow10(s.len()),
    decreases s.len(),
{
    if s.len() > 0 {
        let t = s.drop_last();
        assert(all_digits(t)) by {
            assert forall|i: int| 0 <= i < t.len() implies is_digit(#[trigger] t[i]) by {
                assert(t[i] == s[i]);
            }
        }
        lemma_digits_value_bound(t);
        assert(is_digit(s[s.len() - 1]));
        let v = digits_value(t);
        let p = pow10(t.len());
        assert(v + 1 <= p);
        assert(v * 10 + 10 <= p * 10) by (nonlinear_arith)
            requires
                v + 1 <= p,
        ;
    }
}

/// The value of a digit string splits at any position `j`.
pub proof fn lemma_digits_value_split(s: Seq<char>, j: int)
    requires
        0 <= j <= s.len(),
    ensures
        digits_value(s) == digits_value(s.take(j)) * pow10((s.len() - j) as nat) + digits_value(
            s.skip(j),
        ),
    decreases s.len(),
{
    if j == s.len() {
        assert(s.take(j) =~= s);
        assert(s.skip(j) =~= Seq::<char>::empty());
        assert(pow10((s.len() - j) as nat) == 1);
        let x = digits_value(s);
        assert(x * pow10((s.len() - j) as nat) == x) by (nonlinear_arith)
            requires
                pow10((s.len() - j) as nat) == 1,
        ;
    } else {
        let t = s.drop_last();
        lemma_digits_value_split(t, j);
        assert(t.take(j) =~= s.take(j));
        assert(s.skip(j).drop_last() =~= t.skip(j));
        assert(s.skip(j).last() == s.last());
        let a = digits_value(s.take(j));
        let p = pow10((t.len() - j) as nat);
        let b = digits_value(t.skip(j));
        let d = digit_value(s.last());
        assert(pow10((s.len() - j) as nat) == 10 * p);
        assert(digits_value(s) == digits_value(t) * 10 + d);
        assert(digits_value(s.skip(j)) == b * 10 + d);
        assert(digits_value(t) == a * p + b);
        assert((a * p + b) * 10 + d == a * (10 * p) + (b * 10 + d)) by (nonlinear_arith);
        assert(digits_value(s.take(j)) * pow10((s.len() - j) as nat) == a * (10 * p));
    }
}

/// Digit values of the prefixes of `s`, one digit at a time.
pub proof fn lemma_digits_value_step(s: Seq<char>, i: int)
    requires
        0 <= i < s.len(),
    ensures
        digits_value(s.take(i + 1)) == digits_value(s.take(i)) * 10 + digit_value(s[i]),
{
    assert(s.take(i + 1).drop_last() =~= s.take(i));
}

/// The run of digits at position `j` of `s`, one character at a time.
pub proof fn lemma_digit_run_step(s: Seq<char>, j: int)
    requires
        0 <= j < s.len(),
        is_digit(s[j]),
    ensures
        digit_run(s.skip(j)) == 1 + digit_run(s.skip(j + 1)),
{
    assert(s.skip(j).drop_first() =~= s.skip(j + 1));
}

/// The run of digits at the start of `s` is made of digits and ends at a
/// character that is no digit, or at the end of `s`.
pub proof fn lemma_digit_run_facts(s: Seq<char>)
    ensures
        digit_run(s) <= s.len(),
        all_digits(s.take(digit_run(s) as int)),
        digit_run(s) < s.len() ==> !is_digit(s[digit_run(s) as int]),
    decreases s.len(),
{
    if s.len() > 0 && is_digit(s[0]) {
        let t = s.drop_first();
        lemma_digit_run_facts(t);
        let n = digit_run(t) as int;
        assert forall|i: int| 0 <= i < n + 1 implies is_digit(#[trigger] s.take(n + 1)[i]) by {
            if i > 0 {
                assert(s.take(n + 1)[i] == t.take(n)[i - 1]);
            }
        }
        if n + 1 < s.len() {
            assert(s[n + 1] == t[n]);
        }
    }
}

// ---------------------------------------------------------------------------
// Datarate grammar
// ---------------------------------------------------------------------------

/// The power of ten that a unit letter stands for: `K`, `M`, `G`, `T` and `P`
/// (in either case) for kilo, mega, giga, tera and peta.
pub open spec fn unit_exponent(c: char) -> Option<nat> {
    if c == 'K' || c == 'k' {
        Some(3)
    } else if c == 'M' || c == 'm' {
        Some(6)
    } else if c == 'G' || c == 'g' {
        Some(9)
    } else if c == 'T' || c == 't' {
        Some(12)
    } else if c == 'P' || c == 'p' {
        Some(15)
    } else {
        None
    }
}

/// The optional trailing `bps` of a datarate.
pub open spec fn bps_suffix() -> Seq<char> {
    seq!['b', 'p', 's']
}

/// The optional fraction of a datarate at the start of `r`: `Some((digits,
/// rest))`, with empty digits where `r` does not start with a point, and
/// `None` where a point is followed by no digit.
pub open spec fn fraction_part(r: Seq<char>) -> Option<(Seq<char>, Seq<char>)> {
    if r.len() > 0 && r[0] == '.' {
        let nf = digit_run(r.drop_first());
        if nf == 0 {
            None
        } else {
            Some((r.subrange(1, 1 + nf as int), r.skip(1 + nf as int)))
        }
    } else {
        Some((Seq::<char>::empty(), r))
    }
}

/// The optional unit letter of a datarate at the start of `r`: its power of
/// ten (0 without a unit) and what follows it.
pub open spec fn unit_part(r: Seq<char>) -> (nat, Seq<char>) {
    if r.len() > 0 && unit_exponent(r[0]) is Some {
        (unit_exponent(r[0])->0, r.drop_first())
    } else {
        (0, r)
    }
}

/// The pieces of a datarate string: its integer digits, its fraction digits
/// (empty without a decimal point) and the power of ten of its unit.
///
/// A datarate is one or more digits, optionally a point and one or more
/// digits, optionally one unit letter, and optionally `bps`, with nothing
/// before or after.
pub open spec fn datarate_syntax(s: Seq<char>) -> Option<(Seq<char>, Seq<char>, nat)> {
    let ni = digit_run(s);
    if ni == 0 {
        None
    } else {
        match fraction_part(s.skip(ni as int)) {
            None => None,
            Some((frac, r2)) => {
                let (e, r3) = unit_part(r2);
                if r3.len() == 0 || r3 == bps_suffix() {
                    Some((s.take(ni as int), frac, e))
                } else {
                    None
                }
            },
        }
    }
}

/// The decimal number `int_digits.frac_digits` times `10^e`, rounded down.
pub open spec fn scaled_decimal(int_digits: Seq<char>, frac_digits: Seq<char>, e: nat) -> nat {
    let p = pow10(frac_digits.len());
    ((digits_value(int_digits) * p + digits_value(frac_digits)) * pow10(e)) / p
}

/// The bits per second that the datarate string `s` stands for, capped at
/// `u64::MAX`, or `None` where `s` is no datarate.
pub open spec fn spec_parse_datarate(s: Seq<char>) -> Option<nat> {
    match datarate_syntax(s) {
        Some((i, f, e)) => Some(capped(scaled_decimal(i, f, e))),
        None => None,
    }
}

/// The message of a datarate that does not follow the grammar.
pub open spec fn invalid_datarate_message(input: Seq<char>) -> Seq<char> {
    "Invalid datarate format: "@ + input
}

/// The multiplier of a unit suffix: `10^e` for a single unit letter, and `1`
/// for the empty suffix or anything else.
pub open spec fn spec_multiple(unit: Seq<char>) -> nat {
    if unit.len() == 1 && unit_exponent(unit[0]) is Some {
        pow10(unit_exponent(unit[0])->0)
    } else {
        1
    }
}

/// The characters of `s`, one by one.
fn chars_of(s: &str) -> (v: Vec<char>)
    ensures
        v@ == s@,
{
    let n = s.unicode_len();
    let mut v: Vec<char> = Vec::new();
    let mut i: usize = 0;
    while i < n
        invariant
            n == s@.len(),
            i <= n,
            v@ == s@.take(i as int),
        decreases n - i,
    {
        let c = s.get_char(i);
        v.push(c);
        i = i + 1;
        assert(v@ =~= s@.take(i as int));
    }
    assert(s@.take(n as int) =~= s@);
    v
}

/// The power of ten of a unit letter, as an executable value.
fn unit_exponent_of(c: char) -> (e: Option<u32>)
    ensures
        match e {
            Some(x) => unit_exponent(c) == Some(x as nat),
            None => unit_exponent(c) is None,
        },
{
    if c == 'K' || c == 'k' {
        Some(3)
    } else if c == 'M' || c == 'm' {
        Some(6)
    } else if c == 'G' || c == 'g' {
        Some(9)
    } else if c == 'T' || c == 't' {
        Some(12)
    } else if c == 'P' || c == 'p' {
        Some(15)
    } else {
        None
    }
}

/// `10^e` for `e <= 19`.
fn pow10_u64(e: u32) -> (r: u64)
    requires
        e <= 19,
    ensures
        r == pow10(e as nat),
{
    let mut r: u64 = 1;
    let mut i: u32 = 0;
    while i < e
        invariant
            i <= e <= 19,
            r == pow10(i as nat),
        decreases e - i,
    {
        proof {
            lemma_pow10_monotone((i + 1) as nat, 19);
            assert(pow10(19) == 10000000000000000000) by {
                reveal_with_fuel(pow10, 20);
            }
        }
        r = r * 10;
        i = i + 1;
    }
    r
}

/// The end of the run of digits of `chars` that starts at `start`.
fn scan_digits(chars: &Vec<char>, start: usize) -> (end: usize)
    requires
        start <= chars@.len(),
    ensures
        end == start + digit_run(chars@.skip(start as int)),
        end <= chars@.len(),
{
    let mut j = start;
    while j < chars.len() && '0' <= chars[j] && chars[j] <= '9'
        invariant
            start <= j <= chars@.len(),
            digit_run(chars@.skip(start as int)) == (j - start) + digit_run(chars@.skip(j as int)),
        decreases chars@.len() - j,
    {
        proof {
            lemma_digit_run_step(chars@, j as int);
        }
        j = j + 1;
    }
    proof {
        if j < chars@.len() {
            assert(chars@.skip(j as int)[0] == chars@[j as int]);
        }
    }
    j
}

/// The value of the digits `chars[start..end]`, capped at `u64::MAX`.
fn digits_value_capped(chars: &Vec<char>, start: usize, end: usize) -> (v: u64)
    requires
        start <= end <= chars@.len(),
        all_digits(chars@.subrange(start as int, end as int)),
    ensures
        v == capped(digits_value(chars@.subrange(start as int, end as int))),
{
    let ghost s = chars@.subrange(start as int, end as int);
    let mut v: u64 = 0;
    let mut j = start;
    while j < end
        invariant
            start <= j <= end <= chars@.len(),
            s == chars@.subrange(start as int, end as int),
            all_digits(s),
            v == capped(digits_value(s.take(j - start))),
        decreases end - j,
    {
        let ghost k = (j - start) as int;
        proof {
            lemma_digits_value_step(s, k);
            assert(is_digit(s[k]));
            assert(s[k] == chars@[j as int]);
        }
        let c = chars[j];
        let d = (c as u32 - '0' as u32) as u64;
        let ghost x = digits_value(s.take(k));
        if v > (u64::MAX - d) / 10 {
            proof {
                assert(v * 10 + d > u64::MAX) by (nonlinear_arith)
                    requires
                        v > (u64::MAX - d) / 10,
                        d <= 9,
                ;
                assert(x * 10 + d > u64::MAX) by (nonlinear_arith)
                    requires
                        x >= v,
                        v * 10 + d > u64::MAX,
                ;
            }
            v = u64::MAX;
        } else {
            proof {
                assert(v * 10 + d <= u64::MAX) by (nonlinear_arith)
                    requires
                        v <= (u64::MAX - d) / 10,
                        d <= 9,
                ;
            }
            v = v * 10 + d;
        }
        j = j + 1;
    }
    assert(s.take(end - start) =~= s);
    v
}

/// `(i * p + f) * q / p == i * q + f * q / p` for positive `p`.
proof fn lemma_scaled_split(i: nat, f: nat, p: nat, q: nat)
    requires
        p > 0,
    ensures
        ((i * p + f) * q) / p == i * q + (f * q) / p,
{
    let fq = (f * q) as int;
    let r = fq % (p as int);
    let d = fq / (p as int);
    vstd::arithmetic::div_mod::lemma_fundamental_div_mod(fq, p as int);
    vstd::arithmetic::div_mod::lemma_mod_bound(fq, p as int);
    assert((i * p + f) * q == (i * q + d) * p + r) by (nonlinear_arith)
        requires
            fq == f * q,
            fq == p * d + r,
    ;
    vstd::arithmetic::div_mod::lemma_fundamental_div_mod_converse(
        ((i * p + f) * q) as int,
        p as int,
        (i * q + d) as int,
        r,
    );
}

/// The fraction part of a datarate, scaled by `10^e` and rounded down, is the
/// number that its first `e` digits write, followed by zeros where it has
/// fewer than `e` digits.
proof fn lemma_fraction_scaled(f: Seq<char>, e: nat)
    requires
        all_digits(f),
    ensures
        f.len() <= e ==> (digits_value(f) * pow10(e)) / pow10(f.len()) == digits_value(f)
            * pow10((e - f.len()) as nat),
        f.len() > e ==> (digits_value(f) * pow10(e)) / pow10(f.len()) == digits_value(
            f.take(e as int),
        ),
{
    let k = f.len();
    let pk = pow10(k);
    lemma_pow10_positive(k);
    if k <= e {
        lemma_pow10_add((e - k) as nat, k);
        let a = pow10((e - k) as nat);
        assert(digits_value(f) * pow10(e) == (digits_value(f) * a) * pk) by (nonlinear_arith)
            requires
                pow10(e) == a * pk,
        ;
        vstd::arithmetic::div_mod::lemma_fundamental_div_mod_converse(
            (digits_value(f) * pow10(e)) as int,
            pk as int,
            (digits_value(f) * a) as int,
            0,
        );
    } else {
        lemma_digits_value_split(f, e as int);
        let g = digits_value(f.take(e as int));
        let rest = f.skip(e as int);
        assert(all_digits(rest)) by {
            assert forall|i: int| 0 <= i < rest.len() implies is_digit(#[trigger] rest[i]) by {
                assert(rest[i] == f[i + e]);
            }
        }
        lemma_digits_value_bound(rest);
        assert(rest.len() == k - e);
        let h = digits_value(rest);
        let pke = pow10((k - e) as nat);
        let pe = pow10(e);
        lemma_pow10_positive(e);
        lemma_pow10_add((k - e) as nat, e);
        assert(digits_value(f) * pe == g * pk + h * pe) by (nonlinear_arith)
            requires
                digits_value(f) == g * pke + h,
                pk == pke * pe,
        ;
        assert(h * pe < pk) by (nonlinear_arith)
            requires
                h < pke,
                pk == pke * pe,
                pe >= 1,
        ;
        vstd::arithmetic::div_mod::lemma_fundamental_div_mod_converse(
            (digits_value(f) * pe) as int,
            pk as int,
            g as int,
            (h * pe) as int,
        );
    }
}

/// The value of a datarate with integer digits `i`, fraction digits `f`
/// and unit `10^e` is the integer part times the unit plus the first `used`
/// fraction digits, scaled to the unit.
proof fn lemma_datarate_total(i: Seq<char>, f: Seq<char>, e: nat, used: nat, head: nat, scale: nat)
    requires
        all_digits(f),
        used == (if f.len() <= e {
            f.len()
        } else {
            e
        }),
        head == digits_value(f.take(used as int)),
        scale == pow10((e - used) as nat),
    ensures
        scaled_decimal(i, f, e) == digits_value(i) * pow10(e) + head * scale,
{
    let k = f.len();
    lemma_fraction_scaled(f, e);
    lemma_pow10_positive(k);
    lemma_scaled_split(digits_value(i), digits_value(f), pow10(k), pow10(e));
    if k > e {
        assert(pow10(0) == 1);
        assert(head * scale == head) by (nonlinear_arith)
            requires
                scale == 1,
        ;
    } else {
        assert(f.take(used as int) =~= f);
    }
}

/// The fraction of a datarate that starts at `pos`: the bounds of its digits
/// and the position after it, or `None` for a point without digits.
fn scan_fraction(chars: &Vec<char>, pos: usize) -> (r: Option<(usize, usize, usize)>)
    requires
        pos <= chars@.len(),
    ensures
        match r {
            Some((fs, fe, next)) => {
                &&& pos <= fs <= fe <= next <= chars@.len()
                &&& all_digits(chars@.subrange(fs as int, fe as int))
                &&& fraction_part(chars@.skip(pos as int)) == Some(
                    (chars@.subrange(fs as int, fe as int), chars@.skip(next as int)),
                )
            },
            None => fraction_part(chars@.skip(pos as int)) is None,
        },
{
    let ghost s = chars@;
    let ghost r1 = s.skip(pos as int);
    if pos < chars.len() && chars[pos] == '.' {
        proof {
            assert(r1[0] == s[pos as int]);
            assert(r1.drop_first() =~= s.skip(pos + 1));
        }
        let fe = scan_digits(chars, pos + 1);
        proof {
            lemma_digit_run_facts(s.skip(pos + 1));
            let f = s.subrange(pos + 1, fe as int);
            assert(f =~= s.skip(pos + 1).take((fe - pos - 1) as int));
            assert(r1.subrange(1, 1 + (fe - pos - 1)) =~= f);
            assert(r1.skip(1 + (fe - pos - 1)) =~= s.skip(fe as int));
        }
        if fe == pos + 1 {
            None
        } else {
            Some((pos + 1, fe, fe))
        }
    } else {
        proof {
            if pos < chars@.len() {
                assert(r1[0] == s[pos as int]);
            }
            assert(s.subrange(pos as int, pos as int) =~= Seq::<char>::empty());
        }
        Some((pos, pos, pos))
    }
}

/// The unit letter of a datarate that may start at `pos`: its power of ten
/// and the position after it.
fn scan_unit(chars: &Vec<char>, pos: usize) -> (r: (u32, usize))
    requires
        pos <= chars@.len(),
    ensures
        r.0 <= 15,
        pos <= r.1 <= chars@.len(),
        unit_part(chars@.skip(pos as int)) == (r.0 as nat, chars@.skip(r.1 as int)),
{
    let ghost r2 = chars@.skip(pos as int);
    if pos < chars.len() {
        proof {
            assert(r2[0] == chars@[pos as int]);
        }
        match unit_exponent_of(chars[pos]) {
            Some(x) => {
                proof {
                    assert(r2.drop_first() =~= chars@.skip(pos + 1));
                }
                (x, pos + 1)
            },
            None => (0, pos),
        }
    } else {
        (0, pos)
    }
}

/// The rest of `chars` from `pos` on is empty or `bps`.
fn is_datarate_tail(chars: &Vec<char>, pos: usize) -> (b: bool)
    requires
        pos <= chars@.len(),
    ensures
        b == (chars@.skip(pos as int).len() == 0 || chars@.skip(pos as int) == bps_suffix()),
{
    let ghost r3 = chars@.skip(pos as int);
    let rest_len = chars.len() - pos;
    if rest_len == 0 {
        true
    } else if rest_len == 3 {
        let b = chars[pos] == 'b' && chars[pos + 1] == 'p' && chars[pos + 2] == 's';
        proof {
            let bps = bps_suffix();
            assert(bps.len() == 3 && bps[0] == 'b' && bps[1] == 'p' && bps[2] == 's');
            assert(r3.len() == 3);
            assert(r3[0] == chars@[pos as int] && r3[1] == chars@[pos + 1] && r3[2] == chars@[pos + 2]);
            if b {
                assert(r3 =~= bps_suffix());
                assert(r3 == bps_suffix());
            }
            if r3 == bps_suffix() {
                assert(r3[0] == chars@[pos as int]);
                assert(r3[1] == chars@[pos + 1]);
                assert(r3[2] == chars@[pos + 2]);
            }
        }
        b
    } else {
        proof {
            assert(bps_suffix().len() == 3);
        }
        false
    }
}

/// Where the pieces of a datarate lie in `chars`: the end of its integer
/// digits, the bounds of its fraction digits and the power of ten of its unit.
fn scan_datarate(chars: &Vec<char>) -> (r: Option<(usize, usize, usize, u32)>)
    ensures
        match r {
            Some((int_end, frac_start, frac_end, e)) => {
                &&& 0 < int_end <= frac_start <= frac_end <= chars@.len()
                &&& e <= 15
                &&& all_digits(chars@.take(int_end as int))
                &&& all_digits(chars@.subrange(frac_start as int, frac_end as int))
                &&& datarate_syntax(chars@) == Some(
                    (
                        chars@.take(int_end as int),
                        chars@.subrange(frac_start as int, frac_end as int),
                        e as nat,
                    ),
                )
            },
            None => datarate_syntax(chars@) is None,
        },
{
    let int_end = scan_digits(chars, 0);
    proof {
        assert(chars@.skip(0) =~= chars@);
        lemma_digit_run_facts(chars@);
    }
    if int_end == 0 {
        return None;
    }
    match scan_fraction(chars, int_end) {
        None => None,
        Some((fs, fe, next)) => {
            let (e, pos) = scan_unit(chars, next);
            if is_datarate_tail(chars, pos) {
                Some((int_end, fs, fe, e))
            } else {
                None
            }
        },
    }
}

/// The value of the datarate whose pieces `scan_datarate` found.
fn datarate_value(chars: &Vec<char>, int_end: usize, frac_start: usize, frac_end: usize, e: u32) -> (v: u64)
    requires
        0 < int_end <= frac_start <= frac_end <= chars@.len(),
        e <= 15,
        all_digits(chars@.take(int_end as int)),
        all_digits(chars@.subrange(frac_start as int, frac_end as int)),
    ensures
        v == capped(
            scaled_decimal(
                chars@.take(int_end as int),
                chars@.subrange(frac_start as int, frac_end as int),
                e as nat,
            ),
        ),
{
    let ghost s = chars@;
    let ghost int_digits = s.take(int_end as int);
    let ghost frac_digits = s.subrange(frac_start as int, frac_end as int);
    proof {
        assert(int_digits =~= s.subrange(0, int_end as int));
    }
    let int_value = digits_value_capped(chars, 0, int_end);
    // Only the first `e` fraction digits can change the rounded result.
    let k = frac_end - frac_start;
    let used = if k <= e as usize {
        k
    } else {
        e as usize
    };
    proof {
        assert(all_digits(frac_digits.take(used as int))) by {
            assert forall|i: int| 0 <= i < used implies is_digit(
                #[trigger] frac_digits.take(used as int)[i],
            ) by {
                assert(frac_digits.take(used as int)[i] == frac_digits[i]);
            }
        }
        assert(frac_digits.take(used as int) =~= s.subrange(
            frac_start as int,
            (frac_start + used) as int,
        ));
        lemma_digits_value_bound(frac_digits.take(used as int));
        lemma_pow10_monotone(used as nat, 15);
        assert(pow10(15) == 1000000000000000) by {
            reveal_with_fuel(pow10, 16);
        }
    }
    let head = digits_value_capped(chars, frac_start, frac_start + used);
    let scale = pow10_u64(e - used as u32);
    let mult = pow10_u64(e);
    proof {
        lemma_pow10_positive((e - used) as nat);
        lemma_pow10_add((e - used) as nat, used as nat);
        assert(head * scale < pow10(e as nat)) by (nonlinear_arith)
            requires
                head < pow10(used as nat),
                scale == pow10((e - used) as nat),
                pow10(e as nat) == pow10((e - used) as nat) * pow10(used as nat),
                pow10((e - used) as nat) >= 1,
        ;
        lemma_datarate_total(int_digits, frac_digits, e as nat, used as nat, head as nat, scale as nat);
    }
    let frac_scaled = head * scale;
    let value = match int_value.checked_mul(mult) {
        Some(x) => match x.checked_add(frac_scaled) {
            Some(y) => y,
            None => u64::MAX,
        },
        None => u64::MAX,
    };
    proof {
        let iv = digits_value(int_digits);
        let total = iv * pow10(e as nat) + frac_scaled;
        assert(scaled_decimal(int_digits, frac_digits, e as nat) == total);
        if iv > u64::MAX {
            assert(iv * pow10(e as nat) >= iv) by (nonlinear_arith)
                requires
                    pow10(e as nat) >= 1,
            ;
        }
        assert(int_value * mult <= iv * pow10(e as nat)) by (nonlinear_arith)
            requires
                int_value <= iv,
                mult == pow10(e as nat),
        ;
        if int_value < iv {
            assert(int_value == u64::MAX);
            assert(int_value * mult >= int_value) by (nonlinear_arith)
                requires
                    mult >= 1,
            ;
        }
    }
    value
}

/// Parses a datarate string (e.g. "100Kbps", "1.5M") into bits per second.
///
/// The string is one or more digits, optionally a decimal point and one or
/// more digits, optionally a unit letter (`K`, `M`, `G`, `T` or `P`, in either
/// case, for 10^3, 10^6, 10^9, 10^12 and 10^15) and optionally `bps`. The
/// result is the decimal number times the unit, rounded down, and capped at
/// `u64::MAX`. Any other string is an error.
pub fn parse_datarate(input: &str) -> (r: Result<Datarate, DecLimiterError>)
    ensures
        match r {
            Ok(v) => spec_parse_datarate(input@) == Some(v as nat),
            Err(e) => {
                &&& spec_parse_datarate(input@) is None
                &&& e matches DecLimiterError::ParseDatarateError(msg)
                &&& msg@ == invalid_datarate_message(input@)
            },
        },
{
    let chars = chars_of(input);
    match scan_datarate(&chars) {
        Some((int_end, frac_start, frac_end, e)) => Ok(
            datarate_value(&chars, int_end, frac_start, frac_end, e),
        ),
        None => {
            let mut msg = String::from_str("Invalid datarate format: ");
            msg.append(input);
            Err(DecLimiterError::ParseDatarateError(msg))
        },
    }
}

/// Given a unit suffix, returns the corresponding multiplier for datarate
/// conversion: 10^3, 10^6, 10^9, 10^12 or 10^15 for the letters `K`, `M`, `G`,
/// `T` and `P` in either case, and 1 for anything else.
pub fn multiple(unit: &str) -> (m: u64)
    ensures
        m == spec_multiple(unit@),
{
    let chars = chars_of(unit);
    if chars.len() == 1 {
        match unit_exponent_of(chars[0]) {
            Some(e) => pow10_u64(e),
            None => 1,
        }
    } else {
        1
    }
}

/// Retrieves the name of process `pid` with sysinfo: refreshes that process
/// and reads its name, or `None` where no such process exists or it cannot
/// be read. Nothing is promised of the result, which depends on the
/// processes running on the machine.
#[verifier::external_body]
pub fn get_process_name(pid: u32) -> (name: Option<String>) {
    let mut sys = sysinfo::System::new();
    let sys_pid = sysinfo::Pid::from_u32(pid);
    sys.refresh_processes(sysinfo::ProcessesToUpdate::Some(&[sys_pid]), true);
    match sys.process(sys_pid) {
        Some(p) => Some(p.name().to_string_lossy().into_owned()),
        None => None,
    }
}

/// The run of digits at the start of `s + t`, where `s` is all digits and
/// `t` starts with no digit, is `s`.
pub proof fn lemma_digit_run_of_digits(s: Seq<char>, t: Seq<char>)
    requires
        all_digits(s),
        t.len() == 0 || !is_digit(t[0]),
    ensures
        digit_run(s + t) == s.len(),
    decreases s.len(),
{
    if s.len() > 0 {
        let st = s + t;
        assert(is_digit(st[0]));
        let rest = s.drop_first();
        assert(all_digits(rest)) by {
            assert forall|i: int| 0 <= i < rest.len() implies is_digit(#[trigger] rest[i]) by {
                assert(rest[i] == s[i + 1]);
            }
        }
        assert(st.drop_first() =~= rest + t);
        lemma_digit_run_of_digits(rest, t);
    } else {
        assert(s + t =~= t);
    }
}

/// A plain number, digits alone, reads as the number it writes (capped at
/// `u64::MAX`): no unit multiplies it.
pub proof fn lemma_plain_number_datarate(s: Seq<char>)
    requires
        s.len() > 0,
        all_digits(s),
    ensures
        spec_parse_datarate(s) == Some(capped(digits_value(s))),
{
    lemma_digit_run_of_digits(s, Seq::empty());
    assert(s + Seq::<char>::empty() =~= s);
    assert(s.skip(s.len() as int) =~= Seq::<char>::empty());
    assert(s.take(s.len() as int) =~= s);
    let v = digits_value(s);
    assert(pow10(0) == 1);
    assert(((v * 1 + 0) * 1) / 1 == v);
}

/// A number followed by a unit letter reads as the number times the unit's
/// power of ten, with or without a trailing `bps` (capped at `u64::MAX`).
pub proof fn lemma_unit_datarate(s: Seq<char>, unit: char)
    requires
        s.len() > 0,
        all_digits(s),
        unit_exponent(unit) is Some,
    ensures
        spec_parse_datarate(s.push(unit)) == Some(capped(digits_value(s) * pow10(unit_exponent(unit)->0))),
        spec_parse_datarate(s.push(unit) + bps_suffix()) == Some(
            capped(digits_value(s) * pow10(unit_exponent(unit)->0)),
        ),
{
    let e = unit_exponent(unit)->0;
    let v = digits_value(s);
    assert(!is_digit(unit));
    let a = s.push(unit);
    lemma_digit_run_of_digits(s, seq![unit]);
    assert(s + seq![unit] =~= a);
    assert(a.skip(s.len() as int) =~= seq![unit]);
    assert(a.take(s.len() as int) =~= s);
    assert(seq![unit].drop_first() =~= Seq::<char>::empty());
    let b = a + bps_suffix();
    lemma_digit_run_of_digits(s, seq![unit] + bps_suffix());
    assert(s + (seq![unit] + bps_suffix()) =~= b);
    assert(b.skip(s.len() as int) =~= seq![unit] + bps_suffix());
    assert(b.take(s.len() as int) =~= s);
    assert((seq![unit] + bps_suffix()).drop_first() =~= bps_suffix());
    assert(pow10(0) == 1);
    assert(((v * 1 + 0) * pow10(e)) / 1 == v * pow10(e));
}

/// `needle` occurs in `hay` as a run of consecutive characters.
pub open spec fn contains_text(hay: Seq<char>, needle: Seq<char>) -> bool {
    exists|i: int| 0 <= i && i + needle.len() <= hay.len() && #[trigger] text_at(hay, needle, i)
}

/// `needle` occurs in `hay` starting at place `i`.
pub open spec fn text_at(hay: Seq<char>, needle: Seq<char>, i: int) -> bool {
    hay.subrange(i, i + needle.len()) == needle
}

/// Whether the characters `needle` occur in `hay` at place `i`.
fn occurs_at(hay: &Vec<char>, needle: &Vec<char>, i: usize) -> (b: bool)
    requires
        i + needle@.len() <= hay@.len(),
    ensures
        b == (hay@.subrange(i as int, i + needle@.len()) == needle@),
{
    let hl = hay.len();
    let mut k: usize = 0;
    while k < needle.len()
        invariant
            k <= needle@.len(),
            i + needle@.len() <= hay@.len(),
            hl == hay@.len(),
            forall|j: int| 0 <= j < k ==> hay@[i + j] == needle@[j],
        decreases needle@.len() - k,
    {
        if hay[i + k] != needle[k] {
            proof {
                assert(hay@.subrange(i as int, i + needle@.len())[k as int] != needle@[k as int]);
            }
            return false;
        }
        k = k + 1;
    }
    assert(hay@.subrange(i as int, i + needle@.len()) =~= needle@);
    true
}

/// Whether `needle` occurs in `hay` as a run of consecutive characters.
pub fn text_contains(hay: &str, needle: &str) -> (b: bool)
    ensures
        b == contains_text(hay@, needle@),
{
    let h = chars_of(hay);
    let n = chars_of(needle);
    let hl = h.len();
    if n.len() > hl {
        return false;
    }
    let last = hl - n.len();
    let mut i: usize = 0;
    loop
        invariant
            h@ == hay@,
            n@ == needle@,
            hl == h@.len(),
            last + n@.len() == h@.len(),
            i <= last,
            forall|j: int| 0 <= j < i ==> !#[trigger] text_at(hay@, needle@, j),
        ensures
            forall|j: int| 0 <= j <= last ==> !#[trigger] text_at(hay@, needle@, j),
        decreases last - i,
    {
        if occurs_at(&h, &n, i) {
            assert(text_at(hay@, needle@, i as int));
            return true;
        }
        if i == last {
            break;
        }
        i = i + 1;
    }
    proof {
        assert forall|j: int| 0 <= j && j + needle@.len() <= hay@.len() implies !#[trigger] text_at(
            hay@,
            needle@,
            j,
        ) by {
            assert(j <= last);
        }
    }
    false
}

/// The running processes whose name contains `name`, read with sysinfo
/// (`System::processes_by_name`, which keeps the processes whose name holds
/// the bytes of `name`): each with its PID and its name, where the name is
/// valid Unicode. Which processes run is up to the machine; what is stated
/// is that every name given contains `name`.
#[verifier::external_body]
fn processes_named(name: &str) -> (found: Vec<(u32, Option<String>)>)
    ensures
        forall|i: int|
            0 <= i < found@.len() ==> match #[trigger] found@[i].1 {
                Some(n) => contains_text(n@, name@),
                None => true,
            },
{
    let kind = sysinfo::RefreshKind::nothing().with_processes(sysinfo::ProcessRefreshKind::everything());
    let sys = sysinfo::System::new_with_specifics(kind);
    let found = sys.processes_by_name(name.as_ref());
    found.map(|p| (p.pid().as_u32(), p.name().to_str().map(|s| s.to_string()))).collect()
}

/// The pair a process read from the system is listed as: its PID and its
/// name, or the empty string where the name is not valid Unicode.
pub open spec fn listed_pair(r: (u32, Option<String>)) -> (u32, Seq<char>) {
    match r.1 {
        Some(n) => (r.0, n@),
        None => (r.0, ""@),
    }
}

/// `found` lists the processes of `raw`, in the same order, each as
/// `listed_pair` gives it.
pub open spec fn lists_processes(raw: Seq<(u32, Option<String>)>, found: Seq<ProcessPair>) -> bool {
    &&& found.len() == raw.len()
    &&& forall|i: int| 0 <= i < raw.len() ==> (#[trigger] found[i].0, found[i].1@) == listed_pair(raw[i])
}

/// Every name in `raw` contains `query`.
pub open spec fn names_contain(raw: Seq<(u32, Option<String>)>, query: Seq<char>) -> bool {
    forall|i: int|
        0 <= i < raw.len() ==> match #[trigger] raw[i].1 {
            Some(n) => contains_text(n@, query),
            None => true,
        }
}

/// Lists the processes read from the system as `(pid, name)` pairs, in the
/// order they were read; a name that is not valid Unicode reads as the empty
/// string.
pub fn process_pairs(raw: &Vec<(u32, Option<String>)>) -> (found: Vec<ProcessPair>)
    ensures
        lists_processes(raw@, found@),
{
    let mut found: Vec<ProcessPair> = Vec::new();
    let mut i: usize = 0;
    while i < raw.len()
        invariant
            i <= raw@.len(),
            found@.len() == i,
            forall|j: int| 0 <= j < i ==> (#[trigger] found@[j].0, found@[j].1@) == listed_pair(raw@[j]),
        decreases raw@.len() - i,
    {
        let pid = raw[i].0;
        let name = match &raw[i].1 {
            Some(n) => n.clone(),
            None => String::new(),
        };
        proof {
            reveal_strlit("");
        }
        found.push((pid, name));
        assert((found@[i as int].0, found@[i as int].1@) == listed_pair(raw@[i as int]));
        i = i + 1;
    }
    found
}

/// `raw` is what one reading of the system's processes by name gave for
/// `name`: a result of `processes_named`.
pub closed spec fn system_reading(name: &str, raw: Vec<(u32, Option<String>)>) -> bool {
    call_ensures(processes_named, (name,), raw)
}

/// Every process of a reading of the system for `name` has a name that
/// contains `name`, or one that is not valid Unicode; so what `find_process`
/// lists (every process of such a reading, in its order) is exactly the
/// running processes the system matched, with their names.
pub proof fn lemma_reading_matches_query(name: &str, raw: Vec<(u32, Option<String>)>, found: Seq<ProcessPair>)
    requires
        system_reading(name, raw),
        lists_processes(raw@, found),
    ensures
        names_contain(raw@, name@),
        found.len() == raw@.len(),
        forall|i: int|
            0 <= i < raw@.len() ==> {
                &&& (#[trigger] found[i]).0 == raw@[i].0
                &&& raw@[i].1 is Some ==> found[i].1@ == raw@[i].1->0@ && contains_text(found[i].1@, name@)
            },
{
    assert forall|i: int| 0 <= i < raw@.len() implies {
        &&& (#[trigger] found[i]).0 == raw@[i].0
        &&& raw@[i].1 is Some ==> found[i].1@ == raw@[i].1->0@ && contains_text(found[i].1@, name@)
    } by {
        assert((found[i].0, found[i].1@) == listed_pair(raw@[i]));
    }
}

/// Finds all running processes whose name contains `process_name`, as
/// `(pid, name)` pairs in the order the system lists them; a name that is
/// not valid Unicode reads as the empty string. Which processes run is up to
/// the machine: what is stated is that the list is that of a reading of the
/// system in which every name contains `process_name`.
pub fn find_process(process_name: &str) -> (found: Vec<ProcessPair>)
    ensures
        exists|raw: Vec<(u32, Option<String>)>|
            system_reading(process_name, raw) && #[trigger] lists_processes(raw@, found@),
        exists|raw: Seq<(u32, Option<String>)>|
            names_contain(raw, process_name@) && #[trigger] lists_processes(raw, found@),
        forall|i: int|
            0 <= i < found@.len() ==> (#[trigger] found@[i]).1@ == ""@ || contains_text(
                found@[i].1@,
                process_name@,
            ),
{
    let raw = processes_named(process_name);
    let found = process_pairs(&raw);
    assert(system_reading(process_name, raw));
    proof {
        reveal_strlit("");
        assert(names_contain(raw@, process_name@));
        assert forall|i: int| 0 <= i < found@.len() implies (#[trigger] found@[i]).1@ == ""@
            || contains_text(found@[i].1@, process_name@) by {
            assert((found@[i].0, found@[i].1@) == listed_pair(raw@[i]));
        }
    }
    found
}

} // verus!
