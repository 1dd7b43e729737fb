//! Speed units of the limit editor, and byte counts and speeds as the table
//! shows them.

use vstd::prelude::*;
use vstd::string::StrSliceExecFns;

use crate::text::{decimal, digit_char, digit_char_of, push_decimal, same_text, string_from_chars};

verus! {

/// The unit a limit is entered in.
#[derive(Debug, Clone, Copy, PartialEq, Eq, Structural)]
pub enum SpeedUnit {
    Bps,
    KBps,
    MBps,
    GBps,
}

/// The label of a unit in the editor.
pub open spec fn unit_label(u: SpeedUnit) -> Seq<char> {
    match u {
        SpeedUnit::Bps => "B/s"@,
        SpeedUnit::KBps => "KB/s"@,
        SpeedUnit::MBps => "MB/s"@,
        SpeedUnit::GBps => "GB/s"@,
    }
}

/// The bytes per second of one of a unit.
pub open spec fn unit_multiplier(u: SpeedUnit) -> nat {
    match u {
        SpeedUnit::Bps => 1,
        SpeedUnit::KBps => 1024,
        SpeedUnit::MBps => 1048576,
        SpeedUnit::GBps => 1073741824,
    }
}

/// The name a unit is saved under.
pub open spec fn unit_name(u: SpeedUnit) -> Seq<char> {
    match u {
        SpeedUnit::Bps => "Bps"@,
        SpeedUnit::KBps => "KBps"@,
        SpeedUnit::MBps => "MBps"@,
        SpeedUnit::GBps => "GBps"@,
    }
}

/// The unit saved under the name `s`; an unknown name reads as `KBps`.
pub open spec fn unit_from_name(s: Seq<char>) -> SpeedUnit {
    if s == "Bps"@ {
        SpeedUnit::Bps
    } else if s == "KBps"@ {
        SpeedUnit::KBps
    } else if s == "MBps"@ {
        SpeedUnit::MBps
    } else if s == "GBps"@ {
        SpeedUnit::GBps
    } else {
        SpeedUnit::KBps
    }
}

impl SpeedUnit {
    /// Every unit, smallest first.
    pub fn all() -> (v: Vec<SpeedUnit>)
        ensures
            v@ == seq![SpeedUnit::Bps, SpeedUnit::KBps, SpeedUnit::MBps, SpeedUnit::GBps],
    {
        let v = vec![SpeedUnit::Bps, SpeedUnit::KBps, SpeedUnit::MBps, SpeedUnit::GBps];
        assert(v@ =~= seq![SpeedUnit::Bps, SpeedUnit::KBps, SpeedUnit::MBps, SpeedUnit::GBps]);
        v
    }

    /// The label shown in the editor.
    pub fn label(&self) -> (s: &'static str)
        ensures
            s@ == unit_label(*self),
    {
        match self {
            SpeedUnit::Bps => "B/s",
            SpeedUnit::KBps => "KB/s",
            SpeedUnit::MBps => "MB/s",
            SpeedUnit::GBps => "GB/s",
        }
    }

    /// Bytes per second in one of this unit.
    pub fn multiplier(&self) -> (m: u64)
        ensures
            m == unit_multiplier(*self),
    {
        match self {
            SpeedUnit::Bps => 1,
            SpeedUnit::KBps => 1024,
            SpeedUnit::MBps => 1048576,
            SpeedUnit::GBps => 1073741824,
        }
    }

    /// The name the unit is saved under.
    pub fn as_str(&self) -> (s: &'static str)
        ensures
            s@ == unit_name(*self),
    {
        match self {
            SpeedUnit::Bps => "Bps",
            SpeedUnit::KBps => "KBps",
            SpeedUnit::MBps => "MBps",
            SpeedUnit::GBps => "GBps",
        }
    }

    /// The unit saved under the name `s`; an unknown name reads as `KBps`.
    pub fn from_str(s: &str) -> (u: SpeedUnit)
        ensures
            u == unit_from_name(s@),
    {
        if same_text(s, "Bps") {
            SpeedUnit::Bps
        } else if same_text(s, "KBps") {
            SpeedUnit::KBps
        } else if same_text(s, "MBps") {
            SpeedUnit::MBps
        } else if same_text(s, "GBps") {
            SpeedUnit::GBps
        } else {
            SpeedUnit::KBps
        }
    }
}

/// A unit reads back from the name it is saved under.
pub proof fn lemma_unit_name_round_trip(u: SpeedUnit)
    ensures
        unit_from_name(unit_name(u)) == u,
{
    reveal_strlit("Bps");
    reveal_strlit("KBps");
    reveal_strlit("MBps");
    reveal_strlit("GBps");
    match u {
        SpeedUnit::Bps => {},
        SpeedUnit::KBps => {
            assert("KBps"@.len() != "Bps"@.len());
        },
        SpeedUnit::MBps => {
            assert("MBps"@.len() != "Bps"@.len());
            assert("MBps"@[0] != "KBps"@[0]);
        },
        SpeedUnit::GBps => {
            assert("GBps"@.len() != "Bps"@.len());
            assert("GBps"@[0] != "KBps"@[0]);
            assert("GBps"@[0] != "MBps"@[0]);
        },
    }
}

// ---------------------------------------------------------------------------
// Numbers as the table shows them
// ---------------------------------------------------------------------------

/// `num / den` rounded to the nearest whole number, halves going to the even
/// neighbour.
pub open spec fn round_half_even(num: nat, den: nat) -> nat
    recommends
        den > 0,
{
    let q = num / den;
    let r = num % den;
    if 2 * r > den || (2 * r == den && q % 2 == 1) {
        q + 1
    } else {
        q
    }
}

/// The spacing of the `f64` values around `n`: 1 below 2^53, and doubling
/// with each further binary digit.
pub open spec fn f64_spacing(n: nat) -> nat
    decreases n,
{
    if n < 0x20_0000_0000_0000 {
        1
    } else {
        2 * f64_spacing(n / 2)
    }
}

/// The value of `n as f64`: the nearest `f64`, ties going to the even
/// significand.
pub open spec fn nearest_f64(n: nat) -> nat {
    round_half_even(n, f64_spacing(n)) * f64_spacing(n)
}

/// The last `places` decimal digits of `r`, with leading zeros.
pub open spec fn frac_digits(r: nat, places: nat) -> Seq<char>
    decreases places,
{
    if places == 0 {
        Seq::empty()
    } else {
        frac_digits(r / 10, (places - 1) as nat).push(digit_char(r % 10))
    }
}

/// `num / den` written with one decimal place (`places == 1`) or two,
/// rounded as `format!` rounds.
pub open spec fn fixed_text(num: nat, den: nat, places: nat) -> Seq<char> {
    let scale: nat = if places == 1 {
        10
    } else {
        100
    };
    let q = round_half_even(num * scale, den);
    decimal(q / scale) + "."@ + frac_digits(q % scale, places)
}

/// A byte count as the table shows it: bytes below 1 KiB, then KB with one
/// decimal, MB and GB with two (1 KB = 1024 bytes).
pub open spec fn bytes_text(bytes: nat) -> Seq<char> {
    if bytes < 1024 {
        decimal(bytes) + " B"@
    } else if bytes < 1048576 {
        fixed_text(bytes, 1024, 1) + " KB"@
    } else if bytes < 1073741824 {
        fixed_text(bytes, 1048576, 2) + " MB"@
    } else {
        fixed_text(nearest_f64(bytes), 1073741824, 2) + " GB"@
    }
}

/// A speed as the table shows it: bytes per second below 1 KiB/s, then KB/s
/// with one decimal, MB/s and GB/s with two.
pub open spec fn speed_text(bytes_per_sec: nat) -> Seq<char> {
    if bytes_per_sec < 1024 {
        decimal(bytes_per_sec) + " B/s"@
    } else if bytes_per_sec < 1048576 {
        fixed_text(bytes_per_sec, 1024, 1) + " KB/s"@
    } else if bytes_per_sec < 1073741824 {
        fixed_text(bytes_per_sec, 1048576, 2) + " MB/s"@
    } else {
        fixed_text(nearest_f64(bytes_per_sec), 1073741824, 2) + " GB/s"@
    }
}

/// `num / den` rounded to the nearest whole number, halves to even.
fn round_ratio(num: u128, den: u128) -> (q: u128)
    requires
        den > 0,
        num / den < u128::MAX,
    ensures
        q == round_half_even(num as nat, den as nat),
{
    let q = num / den;
    let r = num % den;
    if r > den - r || (r == den - r && q % 2 == 1) {
        q + 1
    } else {
        q
    }
}

/// The value of `n as f64`, exactly.
fn nearest_f64_of(n: u64) -> (v: u128)
    ensures
        v == nearest_f64(n as nat),
        v <= 0x1_0000_0000_0000_1000,
{
    let mut m: u64 = n;
    let mut spacing: u128 = 1;
    while m >= 0x20_0000_0000_0000
        invariant
            1 <= spacing,
            m as nat == n as nat / spacing as nat,
            f64_spacing(n as nat) == spacing * f64_spacing(m as nat),
            spacing == 1 || spacing * 0x10_0000_0000_0000 <= n,
        decreases m,
    {
        proof {
            vstd::arithmetic::div_mod::lemma_div_denominator(n as int, spacing as int, 2);
            assert(spacing * f64_spacing(m as nat) == (spacing * 2) * f64_spacing((m / 2) as nat))
                by (nonlinear_arith)
                requires
                    f64_spacing(m as nat) == 2 * f64_spacing((m / 2) as nat),
            ;
            assert(spacing * m <= n) by (nonlinear_arith)
                requires
                    m as nat == n as nat / spacing as nat,
                    spacing > 0,
            ;
            assert((spacing * 2) * 0x10_0000_0000_0000 <= n) by (nonlinear_arith)
                requires
                    spacing * m <= n,
                    m >= 0x20_0000_0000_0000,
            ;
        }
        m = m / 2;
        spacing = spacing * 2;
    }
    let q = round_ratio(n as u128, spacing);
    proof {
        assert(f64_spacing(m as nat) == 1);
        assert(spacing < 0x1000) by (nonlinear_arith)
            requires
                spacing == 1 || spacing * 0x10_0000_0000_0000 <= n,
                n <= u64::MAX,
        ;
        assert(spacing * m <= n) by (nonlinear_arith)
            requires
                m as nat == n as nat / spacing as nat,
                spacing > 0,
        ;
        assert(q <= m + 1);
        assert(q * spacing <= n + spacing) by (nonlinear_arith)
            requires
                q <= m + 1,
                spacing * m <= n,
                spacing > 0,
        ;
    }
    q * spacing
}

/// Appends the last `places` decimal digits of `r`, with leading zeros.
fn push_frac_digits(r: u128, places: u32, out: &mut Vec<char>)
    requires
        places <= 2,
    ensures
        final(out)@ == old(out)@ + frac_digits(r as nat, places as nat),
    decreases places,
{
    if places > 0 {
        push_frac_digits(r / 10, places - 1, out);
        out.push(digit_char_of((r % 10) as u64));
        proof {
            assert(old(out)@ + frac_digits(r as nat, places as nat) =~= old(out)@ + frac_digits(
                (r / 10) as nat,
                (places - 1) as nat,
            ) + seq![digit_char((r % 10) as nat)]);
        }
    } else {
        assert(old(out)@ + frac_digits(r as nat, 0) =~= old(out)@);
    }
}

/// Appends `num / den` with `places` decimal places.
fn push_fixed(num: u128, den: u128, places: u32, out: &mut Vec<char>)
    requires
        den >= 1024,
        places == 1 || places == 2,
        num <= 0x1_0000_0000_0000_1000,
    ensures
        final(out)@ == old(out)@ + fixed_text(num as nat, den as nat, places as nat),
{
    let scale: u128 = if places == 1 {
        10
    } else {
        100
    };
    proof {
        assert(num * scale <= 0x64_0000_0000_0006_4000);
        vstd::arithmetic::div_mod::lemma_div_is_ordered_by_denominator((num * scale) as int, 1024, den as int);
        vstd::arithmetic::div_mod::lemma_div_is_ordered((num * scale) as int, 0x64_0000_0000_0006_4000, 1024);
        assert(0x64_0000_0000_0006_4000int / 1024 < 0xffff_ffff_ffff_fff0);
    }
    let q = round_ratio(num * scale, den);
    let whole = (q / scale) as u64;
    push_decimal(whole, out);
    out.push('.');
    push_frac_digits(q % scale, places, out);
    proof {
        reveal_strlit(".");
        assert(old(out)@ + fixed_text(num as nat, den as nat, places as nat) =~= old(out)@ + decimal(
            (q / scale) as nat,
        ) + seq!['.'] + frac_digits((q % scale) as nat, places as nat));
    }
}

/// Appends the characters of `s`.
fn push_str(s: &str, out: &mut Vec<char>)
    ensures
        final(out)@ == old(out)@ + s@,
{
    let n = s.unicode_len();
    let mut i: usize = 0;
    let ghost start = out@;
    while i < n
        invariant
            n == s@.len(),
            i <= n,
            out@ == start + s@.take(i as int),
        decreases n - i,
    {
        out.push(s.get_char(i));
        i = i + 1;
        assert(out@ =~= start + s@.take(i as int));
    }
    assert(s@.take(n as int) =~= s@);
}

/// Formats a byte count for the table: bytes below 1 KiB, then KB with one
/// decimal, MB and GB with two (1 KB = 1024 bytes).
pub fn format_bytes(bytes: u64) -> (s: String)
    ensures
        s@ == bytes_text(bytes as nat),
{
    let mut out: Vec<char> = Vec::new();
    if bytes < 1024 {
        push_decimal(bytes, &mut out);
        push_str(" B", &mut out);
    } else if bytes < 1048576 {
        push_fixed(bytes as u128, 1024, 1, &mut out);
        push_str(" KB", &mut out);
    } else if bytes < 1073741824 {
        push_fixed(bytes as u128, 1048576, 2, &mut out);
        push_str(" MB", &mut out);
    } else {
        push_fixed(nearest_f64_of(bytes), 1073741824, 2, &mut out);
        push_str(" GB", &mut out);
    }
    assert(out@ =~= bytes_text(bytes as nat));
    string_from_chars(&out)
}

/// Formats a speed for the table: bytes per second below 1 KiB/s, then KB/s
/// with one decimal, MB/s and GB/s with two.
pub fn format_speed(bytes_per_sec: u64) -> (s: String)
    ensures
        s@ == speed_text(bytes_per_sec as nat),
{
    let mut out: Vec<char> = Vec::new();
    if bytes_per_sec < 1024 {
        push_decimal(bytes_per_sec, &mut out);
        push_str(" B/s", &mut out);
    } else if bytes_per_sec < 1048576 {
        push_fixed(bytes_per_sec as u128, 1024, 1, &mut out);
        push_str(" KB/s", &mut out);
    } else if bytes_per_sec < 1073741824 {
        push_fixed(bytes_per_sec as u128, 1048576, 2, &mut out);
        push_str(" MB/s", &mut out);
    } else {
        push_fixed(nearest_f64_of(bytes_per_sec), 1073741824, 2, &mut out);
        push_str(" GB/s", &mut out);
    }
    assert(out@ =~= speed_text(bytes_per_sec as nat));
    string_from_chars(&out)
}

/// How strongly a speed is drawn: idle traffic is dimmed so that the active
/// rows stand out.
#[derive(Debug, Clone, Copy, PartialEq, Eq, Structural)]
pub enum SpeedShade {
    /// No traffic.
    Idle,
    /// Below 10 KiB/s.
    Normal,
    /// 10 KiB/s and more, drawn in the color of its direction.
    Active,
}

/// The shade a speed is drawn in.
pub open spec fn shade_of(bytes_per_sec: nat) -> SpeedShade {
    if bytes_per_sec < 1 {
        SpeedShade::Idle
    } else if bytes_per_sec < 10240 {
        SpeedShade::Normal
    } else {
        SpeedShade::Active
    }
}

/// The shade a speed is drawn in.
pub fn speed_shade(bytes_per_sec: u64) -> (s: SpeedShade)
    ensures
        s == shade_of(bytes_per_sec as nat),
{
    if bytes_per_sec < 1 {
        SpeedShade::Idle
    } else if bytes_per_sec < 10240 {
        SpeedShade::Normal
    } else {
        SpeedShade::Active
    }
}

} // verus!
