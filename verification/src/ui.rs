//! Terminal styling and drawing.

use vstd::prelude::*;
use vstd::string::*;

use crate::reading::{Reading, ONE_KEY, TEN_KEY, THOUSAND_KEY};
use crate::text::{decimal, padded_decimal, repeat, spaces};
use crate::text::{blanks, decimal_text, run_of, two_digits};

verus! {

pub const HIDE_CURSOR: &'static str = "\x1b[?25l";

pub const SHOW_CURSOR: &'static str = "\x1b[?25h";

/// Return to column 0 and clear the line.
pub const CLEAR_LINE: &'static str = "\r\x1b[2K";

/// How wide a terminal is taken to be when it does not say.
pub const DEFAULT_WIDTH: usize = 80;

/// Whether to color the output: only on a terminal, and not where the user has
/// set `NO_COLOR`.
pub fn init_color(is_terminal: bool, no_color_set: bool) -> (color: bool)
    ensures
        color == (is_terminal && !no_color_set),
{
    is_terminal && !no_color_set
}

/// `s` under the style `code`, or plain where there is no color.
pub open spec fn styled(color: bool, code: Seq<char>, s: Seq<char>) -> Seq<char> {
    if color {
        "\x1b["@ + code + "m"@ + s + "\x1b[0m"@
    } else {
        s
    }
}

/// Styles `s` with the terminal attribute `code`.
pub fn sgr(color: bool, code: &str, s: &str) -> (r: String)
    ensures
        r@ == styled(color, code@, s@),
{
    if color {
        let mut r = "\x1b[".to_owned();
        r.append(code);
        r.append("m");
        r.append(s);
        r.append("\x1b[0m");
        r
    } else {
        s.to_owned()
    }
}

pub fn bold(color: bool, s: &str) -> (r: String)
    ensures
        r@ == styled(color, "1"@, s@),
{
    sgr(color, "1", s)
}

pub fn dim(color: bool, s: &str) -> (r: String)
    ensures
        r@ == styled(color, "2"@, s@),
{
    sgr(color, "2", s)
}

pub fn red(color: bool, s: &str) -> (r: String)
    ensures
        r@ == styled(color, "31"@, s@),
{
    sgr(color, "31", s)
}

pub fn yellow(color: bool, s: &str) -> (r: String)
    ensures
        r@ == styled(color, "33"@, s@),
{
    sgr(color, "33", s)
}

#[derive(Clone, Copy, PartialEq, Eq, Structural, Debug)]
pub enum Accent {
    Cyan,
    Magenta,
}

impl Accent {
    /// The attribute of the accent in normal weight.
    pub open spec fn code(self) -> Seq<char> {
        match self {
            Accent::Cyan => "36"@,
            Accent::Magenta => "35"@,
        }
    }

    /// The attribute of the accent in bold.
    pub open spec fn bold_code(self) -> Seq<char> {
        match self {
            Accent::Cyan => "1;36"@,
            Accent::Magenta => "1;35"@,
        }
    }

    pub fn paint(self, color: bool, s: &str) -> (r: String)
        ensures
            r@ == styled(color, self.code(), s@),
    {
        match self {
            Accent::Cyan => sgr(color, "36", s),
            Accent::Magenta => sgr(color, "35", s),
        }
    }

    pub fn paint_bold(self, color: bool, s: &str) -> (r: String)
        ensures
            r@ == styled(color, self.bold_code(), s@),
    {
        match self {
            Accent::Cyan => sgr(color, "1;36", s),
            Accent::Magenta => sgr(color, "1;35", s),
        }
    }
}

/// The columns to draw in, given the `(columns, rows)` the terminal reports.
/// Pseudo-terminals can report 0 columns.
pub fn term_width(size: Option<(u16, u16)>) -> (width: usize)
    ensures
        width == match size {
            Some((w, _)) => if w > 0 {
                w as int
            } else {
                DEFAULT_WIDTH as int
            },
            None => DEFAULT_WIDTH as int,
        },
{
    match size {
        Some((w, _)) if w > 0 => w as usize,
        _ => DEFAULT_WIDTH,
    }
}

/// The unit a rate is shown in.
#[derive(Clone, Copy, PartialEq, Eq, Structural, Debug)]
pub enum RateUnit {
    Gbps,
    Mbps,
    Kbps,
}

/// From 1000 Mbps on in Gbps, from 1 Mbps on in Mbps, and in kbps below.
pub open spec fn unit_of_rate(mbps: Reading) -> RateUnit {
    if mbps.ge(Reading { key: THOUSAND_KEY }) {
        RateUnit::Gbps
    } else if mbps.ge(Reading { key: ONE_KEY }) {
        RateUnit::Mbps
    } else {
        RateUnit::Kbps
    }
}

impl RateUnit {
    /// What is written behind the number.
    pub open spec fn suffix(self) -> Seq<char> {
        match self {
            RateUnit::Gbps => " Gbps"@,
            RateUnit::Mbps => " Mbps"@,
            RateUnit::Kbps => " kbps"@,
        }
    }

    /// How many digits the number has behind the point.
    pub open spec fn places(self) -> nat {
        match self {
            RateUnit::Gbps => 2,
            RateUnit::Mbps => 1,
            RateUnit::Kbps => 0,
        }
    }
}

/// The unit to show a rate in, and the digits its number gets behind the point.
pub fn rate_unit(mbps: Reading) -> (r: (RateUnit, usize))
    ensures
        r.0 == unit_of_rate(mbps),
        r.1 == r.0.places(),
{
    if mbps.at_least(Reading { key: THOUSAND_KEY }) {
        (RateUnit::Gbps, 2)
    } else if mbps.at_least(Reading { key: ONE_KEY }) {
        (RateUnit::Mbps, 1)
    } else {
        (RateUnit::Kbps, 0)
    }
}

/// "482.3 Mbps", "1.24 Gbps", "850 kbps": `number` is the rate in its unit.
pub fn rate(mbps: Reading, number: &str) -> (r: String)
    ensures
        r@ == number@ + unit_of_rate(mbps).suffix(),
{
    let mut r = number.to_owned();
    match rate_unit(mbps).0 {
        RateUnit::Gbps => r.append(" Gbps"),
        RateUnit::Mbps => r.append(" Mbps"),
        RateUnit::Kbps => r.append(" kbps"),
    }
    r
}

/// The digits a number of milliseconds gets behind the point: one below 10 ms.
pub fn ms_places(v: Reading) -> (r: usize)
    ensures
        r == if v.lt(Reading { key: TEN_KEY }) {
            1int
        } else {
            0
        },
{
    if v.below(Reading { key: TEN_KEY }) {
        1
    } else {
        0
    }
}

/// "4.7 ms".
pub fn ms(number: &str) -> (r: String)
    ensures
        r@ == number@ + " ms"@,
{
    let mut r = number.to_owned();
    r.append(" ms");
    r
}

/// `num / den` rounded to a whole number, halves to the even one.
pub open spec fn nearest(num: nat, den: nat) -> nat {
    let q = num / den;
    let r = num % den;
    if 2 * r < den || (2 * r == den && q % 2 == 0) {
        q
    } else {
        q + 1
    }
}

/// The smallest of `unit`, `2 * unit`, `4 * unit`, ... of which `n` holds fewer
/// than 2^53.
pub open spec fn last_bit(n: nat, unit: nat) -> nat
    decreases n - unit,
{
    if unit == 0 || n < 0x20_0000_0000_0000 * unit {
        unit
    } else {
        last_bit(n, 2 * unit)
    }
}

/// `n` as the nearest double-precision number.
pub open spec fn as_double(n: nat) -> nat {
    nearest(n, last_bit(n, 1)) * last_bit(n, 1)
}

/// `(num, unit)`, both doubled until `num / den` has 53 digits before the point.
pub open spec fn magnified(num: nat, den: nat, unit: nat) -> (nat, nat)
    decreases
        (if num < 0x10_0000_0000_0000 * den {
            0x10_0000_0000_0000 * den - num
        } else {
            0
        }),
{
    if num == 0 || num >= 0x10_0000_0000_0000 * den {
        (num, unit)
    } else {
        magnified(2 * num, den, 2 * unit)
    }
}

/// `num / den` taken as the nearest double-precision number, times `scale`,
/// rounded to a whole number.
pub open spec fn rounded_quotient(num: nat, den: nat, scale: nat) -> nat {
    let (n, unit) = magnified(num, den, 1);
    nearest(scale * nearest(n, den), unit)
}

/// `n` bytes: in GB with two digits behind the point from 1 GB on, else in whole MB.
pub open spec fn bytes_text(n: nat) -> Seq<char> {
    if n >= 1_000_000_000 {
        let hundredths = rounded_quotient(as_double(n), 1_000_000_000, 100);
        decimal_text(hundredths / 100) + "."@ + two_digits(hundredths % 100) + " GB"@
    } else {
        decimal_text(rounded_quotient(n, 1_000_000, 1)) + " MB"@
    }
}

fn nearest_quotient(num: u128, den: u128) -> (r: u128)
    requires
        0 < den <= 0x1_0000_0000_0000_0000_0000_0000,
        num / den < 0x1_0000_0000_0000_0000,
    ensures
        r == nearest(num as nat, den as nat),
        r <= num / den + 1,
{
    let q: u128 = num / den;
    let r: u128 = num % den;
    if 2 * r < den || (2 * r == den && q % 2 == 0) {
        q
    } else {
        q + 1
    }
}

fn double_of(n: u64) -> (r: u128)
    ensures
        r == as_double(n as nat),
        r <= 0x2_0000_0000_0000_0000,
{
    let wide: u128 = n as u128;
    let mut unit: u128 = 1;
    while wide >= 0x20_0000_0000_0000 * unit
        invariant
            1 <= unit < 0x1000,
            unit == 1 || 0x10_0000_0000_0000 * unit <= wide,
            wide == n,
            last_bit(n as nat, 1) == last_bit(n as nat, unit as nat),
        decreases wide - unit,
    {
        unit = 2 * unit;
    }
    assert(wide / unit < 0x20_0000_0000_0000) by (nonlinear_arith)
        requires
            wide < 0x20_0000_0000_0000 * unit,
            unit >= 1,
    ;
    let q: u128 = nearest_quotient(wide, unit);
    assert(q * unit <= 0x2_0000_0000_0000_0000) by (nonlinear_arith)
        requires
            q <= 0x20_0000_0000_0000,
            unit < 0x1000,
    ;
    q * unit
}

fn quotient(num: u128, den: u128, scale: u128) -> (r: u128)
    requires
        num <= 0x2_0000_0000_0000_0000,
        0 < den <= 0x1_0000_0000,
        num < 0x10_0000_0000_0000 * den,
        scale <= 0x100,
    ensures
        r == rounded_quotient(num as nat, den as nat, scale as nat),
        r <= scale * 0x20_0000_0000_0000 + 1,
{
    let limit: u128 = 0x10_0000_0000_0000 * den;
    let mut n: u128 = num;
    let mut unit: u128 = 1;
    while n != 0 && n < limit
        invariant
            limit == 0x10_0000_0000_0000 * den,
            0 < den <= 0x1_0000_0000,
            n == 0 || unit <= n,
            n == 0 ==> unit == 1,
            1 <= unit,
            n < 2 * limit,
            magnified(num as nat, den as nat, 1) == magnified(n as nat, den as nat, unit as nat),
        decreases 2 * limit - n,
    {
        n = 2 * n;
        unit = 2 * unit;
    }
    assert(n / den < 0x20_0000_0000_0000) by (nonlinear_arith)
        requires
            n < 2 * (0x10_0000_0000_0000 * den),
            den > 0,
    ;
    let m: u128 = nearest_quotient(n, den);
    assert(scale * m <= scale * 0x20_0000_0000_0000) by (nonlinear_arith)
        requires
            m <= 0x20_0000_0000_0000,
    ;
    assert((scale * m) / unit as int <= scale * m) by (nonlinear_arith)
        requires
            unit >= 1,
            scale * m >= 0,
    ;
    nearest_quotient(scale * m, unit)
}

/// "139 MB", "3.75 GB".
pub fn bytes(n: u64) -> (r: String)
    ensures
        r@ == bytes_text(n as nat),
{
    if n >= 1_000_000_000 {
        let hundredths: u64 = quotient(double_of(n), 1_000_000_000, 100) as u64;
        let mut r = decimal(hundredths / 100);
        r.append(".");
        r.append(padded_decimal(hundredths % 100).as_str());
        r.append(" GB");
        r
    } else {
        let mut r = decimal(quotient(n as u128, 1_000_000, 1) as u64);
        r.append(" MB");
        r
    }
}

proof fn lemma_magnified(num: nat, den: nat, unit: nat)
    requires
        0 < num,
        0 < den,
        0 < unit,
    ensures
        ({
            let (n, u) = magnified(num, den, unit);
            &&& n * unit == num * u
            &&& 0x10_0000_0000_0000 * den <= n
            &&& 0 < u
            &&& num < 0x10_0000_0000_0000 * den ==> u % 2 == 0
        }),
    decreases
            (if num < 0x10_0000_0000_0000 * den {
                0x10_0000_0000_0000 * den - num
            } else {
                0
            }),
{
    if num < 0x10_0000_0000_0000 * den {
        lemma_magnified(2 * num, den, 2 * unit);
        let (n, u) = magnified(2 * num, den, 2 * unit);
        assert(n * unit == num * u) by (nonlinear_arith)
            requires
                n * (2 * unit) == (2 * num) * u,
        ;
        if 2 * num >= 0x10_0000_0000_0000 * den {
            assert((n, u) == (2 * num, 2 * unit));
        }
    }
}

proof fn lemma_nearest(x: nat, u: nat, a: nat)
    requires
        0 < u,
        2 * a * u - u < 2 * x < 2 * a * u + u,
    ensures
        nearest(x, u) == a,
{
    let d = x - a * u;
    assert(-u < 2 * d < u) by (nonlinear_arith)
        requires
            d == x - a * u,
            2 * a * u - u < 2 * x < 2 * a * u + u,
    ;
    if d >= 0 {
        vstd::arithmetic::div_mod::lemma_fundamental_div_mod_converse(
            x as int,
            u as int,
            a as int,
            d,
        );
    } else {
        assert(x == (a - 1) * u + (d + u)) by (nonlinear_arith)
            requires
                d == x - a * u,
        ;
        vstd::arithmetic::div_mod::lemma_fundamental_div_mod_converse(
            x as int,
            u as int,
            a - 1,
            d + u,
        );
    }
}

proof fn lemma_nearest_error(x: nat, d: nat)
    requires
        0 < d,
    ensures
        -d <= 2 * (nearest(x, d) * d) - 2 * x <= d,
        x % d == 0 ==> nearest(x, d) * d == x,
{
    vstd::arithmetic::div_mod::lemma_fundamental_div_mod(x as int, d as int);
    let q = (x / d) as int;
    assert((q + 1) * d == d * q + d) by (nonlinear_arith);
    assert(q * d == d * q) by (nonlinear_arith);
}

/// How far the detour over doubles can lead away from `scale * num / den`.
proof fn lemma_detour(num: nat, den: nat, scale: nat)
    requires
        0 < num,
        0 < den,
        0 < scale,
    ensures
        ({
            let (n, u) = magnified(num, den, 1);
            let x = scale * nearest(n, den);
            &&& rounded_quotient(num, den, scale) == nearest(x, u)
            &&& -(scale * den) <= 2 * (x * den) - 2 * (u * (scale * num)) <= scale * den
            &&& 0x10_0000_0000_0000 * den <= num * u
            &&& 0 < u
        }),
{
    lemma_magnified(num, den, 1);
    let (n, u) = magnified(num, den, 1);
    assert(n == num * u) by (nonlinear_arith)
        requires
            n * 1 == num * u,
    ;
    lemma_nearest_error(n, den);
    let q = nearest(n, den);
    let x = scale * q;
    let e = 2 * (q * den) - 2 * n;
    assert(2 * (x * den) == 2 * (u * (scale * num)) + scale * e) by (nonlinear_arith)
        requires
            x == scale * q,
            n == num * u,
            e == 2 * (q * den) - 2 * n,
    ;
    assert(-(scale * den) <= scale * e <= scale * den) by (nonlinear_arith)
        requires
            -den <= e <= den,
            scale > 0,
    ;
}

/// The detour does not show where `scale * num / den` keeps away from a half: by `gap`,
/// in units of `1 / (2 * den)`.
proof fn lemma_no_detour(num: nat, den: nat, scale: nat, gap: nat)
    requires
        0 < num,
        0 < den,
        0 < scale,
        2 * (scale * num % den) + gap <= den || den + gap <= 2 * (scale * num % den),
        0 < gap,
        scale * num < 0x10_0000_0000_0000 * gap,
    ensures
        rounded_quotient(num, den, scale) == nearest(scale * num, den),
{
    lemma_detour(num, den, scale);
    let (n, u) = magnified(num, den, 1);
    let x = scale * nearest(n, den);
    let s = scale * num;
    let a = (s / den) as int;
    let r = (s % den) as int;
    vstd::arithmetic::div_mod::lemma_fundamental_div_mod(s as int, den as int);
    vstd::arithmetic::div_mod::lemma_mod_bound(s as int, den as int);
    assert(2 * (u * s) == 2 * (u * a) * den + 2 * u * r) by (nonlinear_arith)
        requires
            s == den * a + r,
    ;
    assert(scale * den < u * gap) by (nonlinear_arith)
        requires
            scale * num < 0x10_0000_0000_0000 * gap,
            0x10_0000_0000_0000 * den <= num * u,
            den > 0,
            gap > 0,
            num > 0,
            u > 0,
            scale > 0,
    {
        assert(scale * den * 0x10_0000_0000_0000 <= scale * (num * u));
        assert(scale * (num * u) == (scale * num) * u);
        assert((scale * num) * u < (0x10_0000_0000_0000 * gap) * u);
        assert((0x10_0000_0000_0000 * gap) * u == 0x10_0000_0000_0000 * (u * gap));
    }
    assert(u * gap <= u * den) by (nonlinear_arith)
        requires
            gap <= den,
            u > 0,
    ;
    if 2 * r + gap <= den {
        assert(2 * u * r + u * gap <= u * den && 2 * u * r >= 0) by (nonlinear_arith)
            requires
                2 * r + gap <= den,
                r >= 0,
                u > 0,
        ;
        assert(2 * a * u - u < 2 * x < 2 * a * u + u) by (nonlinear_arith)
            requires
                2 * (x * den) > 2 * (u * a) * den - u * den,
                2 * (x * den) < 2 * (u * a) * den + u * den,
                den > 0,
        ;
        lemma_nearest(x, u, a as nat);
    } else {
        assert(2 * u * r >= u * den + u * gap && 2 * u * r <= 2 * (u * den)) by (nonlinear_arith)
            requires
                den + gap <= 2 * r,
                r < den,
                u > 0,
        ;
        assert(2 * (a + 1) * u - u < 2 * x < 2 * (a + 1) * u + u) by (nonlinear_arith)
            requires
                2 * (x * den) > 2 * (u * a) * den + u * den,
                2 * (x * den) < 2 * (u * a) * den + 3 * (u * den),
                den > 0,
        ;
        lemma_nearest(x, u, (a + 1) as nat);
    }
}

/// A half in megabytes is a double, so it is seen as a half.
proof fn lemma_half_megabyte(n: nat)
    requires
        n < 1_000_000_000,
        n % 1_000_000 == 500_000,
    ensures
        rounded_quotient(n, 1_000_000, 1) == nearest(n, 1_000_000),
{
    lemma_magnified(n, 1_000_000, 1);
    let (m, u) = magnified(n, 1_000_000, 1);
    let a = (n / 1_000_000) as int;
    let h = (u / 2) as int;
    assert(n == 1_000_000 * a + 500_000);
    assert(m == 1_000_000 * (a * u + h)) by (nonlinear_arith)
        requires
            m * 1 == n * u,
            n == 1_000_000 * a + 500_000,
            u == 2 * h,
    ;
    let q = nearest(m, 1_000_000);
    assert(q == a * u + h);
    vstd::arithmetic::div_mod::lemma_fundamental_div_mod_converse(q as int, u as int, a, h);
}

/// A half in hundredths of a gigabyte goes to one of its neighbors.
proof fn lemma_half_hundredth(n: nat)
    requires
        n < 0x20_0000_0000_0000,
        n % 10_000_000 == 5_000_000,
    ensures
        ({
            let shown = rounded_quotient(n, 1_000_000_000, 100);
            n / 10_000_000 <= shown <= n / 10_000_000 + 1
        }),
{
    lemma_detour(n, 1_000_000_000, 100);
    let (m, u) = magnified(n, 1_000_000_000, 1);
    let x = 100 * nearest(m, 1_000_000_000);
    let a = (n / 10_000_000) as int;
    assert(u > 1_000) by (nonlinear_arith)
        requires
            0x10_0000_0000_0000 * 1_000_000_000 <= n * u,
            n < 0x20_0000_0000_0000,
            u > 0,
    ;
    assert(2 * (u * (100 * n)) == (2 * (a * u) + u) * 1_000_000_000) by (nonlinear_arith)
        requires
            n == 10_000_000 * a + 5_000_000,
    ;
    let d = x - a * u;
    vstd::arithmetic::div_mod::lemma_fundamental_div_mod_converse(x as int, u as int, a, d);
}

/// Megabytes are rounded to the nearest, halves to the even one. So are hundredths of a
/// gigabyte, up to 2^53 bytes, but for halves, which go to one of their neighbors.
pub proof fn sizes_are_rounded_to_the_nearest(n: nat)
    ensures
        n < 1_000_000_000 ==> rounded_quotient(n, 1_000_000, 1) == nearest(n, 1_000_000),
        n < 0x20_0000_0000_0000 ==> ({
            let shown = rounded_quotient(as_double(n), 1_000_000_000, 100);
            if n % 10_000_000 == 5_000_000 {
                n / 10_000_000 <= shown <= n / 10_000_000 + 1
            } else {
                shown == nearest(n, 10_000_000)
            }
        }),
{
    if n > 0 {
        if n % 1_000_000 != 500_000 && n < 1_000_000_000 {
            lemma_no_detour(n, 1_000_000, 1, 2);
        } else if n < 1_000_000_000 {
            lemma_half_megabyte(n);
        }
    }
    if n < 0x20_0000_0000_0000 {
        assert(last_bit(n, 1) == 1);
        assert(n / 1 == n && n % 1 == 0) by (nonlinear_arith);
        assert(as_double(n) == n);
        if n % 10_000_000 == 5_000_000 {
            lemma_half_hundredth(n);
        } else if n > 0 {
            assert(100 * n % 1_000_000_000 == 100 * (n % 10_000_000));
            assert(100 * n / 1_000_000_000 == n / 10_000_000);
            lemma_no_detour(n, 1_000_000_000, 100, 200);
        }
    }
}

/// `secs` seconds as hours and minutes, as minutes and seconds, or as seconds.
pub open spec fn duration_text(secs: nat) -> Seq<char> {
    if secs >= 3600 {
        decimal_text(secs / 3600) + "h"@ + two_digits(secs % 3600 / 60) + "m"@
    } else if secs >= 60 {
        decimal_text(secs / 60) + "m"@ + two_digits(secs % 60) + "s"@
    } else {
        decimal_text(secs) + "s"@
    }
}

/// "1h05m", "2m07s", "42s".
pub fn duration(secs: u64) -> (r: String)
    ensures
        r@ == duration_text(secs as nat),
{
    if secs >= 3600 {
        let mut r = decimal(secs / 3600);
        r.append("h");
        r.append(padded_decimal(secs % 3600 / 60).as_str());
        r.append("m");
        r
    } else if secs >= 60 {
        let mut r = decimal(secs / 60);
        r.append("m");
        r.append(padded_decimal(secs % 60).as_str());
        r.append("s");
        r
    } else {
        let mut r = decimal(secs);
        r.append("s");
        r
    }
}

/// A block filled to `level` eighths; a blank at 0.
pub open spec fn block(level: int) -> char {
    if level <= 0 {
        ' '
    } else {
        (0x2580 + level) as char
    }
}

fn block_text(level: usize) -> (r: &'static str)
    requires
        level <= 8,
    ensures
        r@ == seq![block(level as int)],
{
    proof {
        reveal_strlit(" ");
        reveal_strlit("▁");
        reveal_strlit("▂");
        reveal_strlit("▃");
        reveal_strlit("▄");
        reveal_strlit("▅");
        reveal_strlit("▆");
        reveal_strlit("▇");
        reveal_strlit("█");
    }
    match level {
        0 => " ",
        1 => "▁",
        2 => "▂",
        3 => "▃",
        4 => "▄",
        5 => "▅",
        6 => "▆",
        7 => "▇",
        _ => "█",
    }
}

/// `v` held between `low` and `high`.
pub open spec fn clamped(v: int, low: int, high: int) -> int {
    if v < low {
        low
    } else if v > high {
        high
    } else {
        v
    }
}

/// One-row sparkline text: one block per value, never blank.
pub open spec fn sparkline_text(eighths: Seq<usize>) -> Seq<char> {
    Seq::new(eighths.len(), |i: int| block(clamped(eighths[i] as int, 1, 8)))
}

/// One-row sparkline of values given in eighths of the scale.
pub fn sparkline(eighths: &Vec<usize>) -> (r: String)
    ensures
        r@ == sparkline_text(eighths@),
{
    let mut s = String::new();
    let mut i: usize = 0;
    while i < eighths.len()
        invariant
            i <= eighths@.len(),
            s@ =~= sparkline_text(eighths@).take(i as int),
        decreases eighths.len() - i,
    {
        let e: usize = eighths[i];
        let level: usize = if e < 1 { 1 } else if e > 8 { 8 } else { e };
        s.append(block_text(level));
        i += 1;
    }
    s
}

/// A thin bar of `width` characters, the first `filled` of them in the accent.
pub open spec fn progress_text(filled: nat, width: nat, accent: Accent, color: bool) -> Seq<char> {
    let done = if filled < width {
        filled
    } else {
        width
    };
    styled(color, accent.code(), run_of('━', done)) + styled(
        color,
        "2"@,
        run_of('─', (width - done) as nat),
    )
}

/// Thin progress bar: accent-colored filled part, dim remainder.
pub fn progress(color: bool, filled: usize, width: usize, accent: Accent) -> (r: String)
    ensures
        r@ == progress_text(filled as nat, width as nat, accent, color),
{
    proof {
        reveal_strlit("━");
        reveal_strlit("─");
    }
    let done: usize = if filled < width { filled } else { width };
    let mut r = accent.paint(color, repeat("━", done).as_str());
    r.append(dim(color, repeat("─", width - done).as_str()).as_str());
    r
}

/// The newest values, at most `width` of them.
pub open spec fn newest<T>(vals: Seq<T>, width: nat) -> Seq<T> {
    if vals.len() > width {
        vals.skip(vals.len() - width)
    } else {
        vals
    }
}

/// How many eighths of row `row` a bar of `u` eighths fills, in a chart of
/// `height` rows: row 0 is the top, the bottom row holds the first 8 eighths.
pub open spec fn row_level(u: int, height: int, row: int) -> int {
    clamped(u - (height - 1 - row) * 8, 0, 8)
}

/// Row `row` of a bar chart: the newest values, right-aligned in `width` columns.
pub open spec fn chart_row(eighths: Seq<usize>, width: nat, height: nat, row: int) -> Seq<char> {
    let shown = newest(eighths, width);
    blanks((width - shown.len()) as nat) + Seq::new(
        shown.len(),
        |i: int| block(row_level(shown[i] as int, height as int, row)),
    )
}

/// Multi-row bar chart, newest value on the right: `height` rows of exactly `width`
/// characters (uncolored). The values are given in eighths of a row; they are
/// right-aligned, padded on the left.
pub fn chart(eighths: &Vec<usize>, width: usize, height: usize) -> (rows: Vec<String>)
    requires
        height * 8 <= usize::MAX,
    ensures
        rows@.len() == height,
        forall|row: int|
            0 <= row < height ==> (#[trigger] rows@[row])@ == chart_row(
                eighths@,
                width as nat,
                height as nat,
                row,
            ),
{
    let first: usize = eighths.len().saturating_sub(width);
    let pad: usize = width - (eighths.len() - first);
    let ghost shown = newest(eighths@, width as nat);
    let mut rows: Vec<String> = Vec::new();
    let mut row: usize = 0;
    while row < height
        invariant
            row <= height,
            height * 8 <= usize::MAX,
            first <= eighths@.len(),
            first == if eighths@.len() > width {
                eighths@.len() - width
            } else {
                0
            },
            pad == width - (eighths@.len() - first),
            shown == newest(eighths@, width as nat),
            rows@.len() == row,
            forall|r: int|
                0 <= r < row ==> (#[trigger] rows@[r])@ == chart_row(
                    eighths@,
                    width as nat,
                    height as nat,
                    r,
                ),
        decreases height - row,
    {
        let base: usize = (height - 1 - row) * 8;
        let mut line = spaces(pad);
        let mut i: usize = first;
        while i < eighths.len()
            invariant
                first <= i <= eighths@.len(),
                row < height,
                height * 8 <= usize::MAX,
                base == (height - 1 - row) * 8,
                shown == newest(eighths@, width as nat),
                first == if eighths@.len() > width {
                    eighths@.len() - width
                } else {
                    0
                },
                pad == width - (eighths@.len() - first),
                line@ =~= chart_row(eighths@, width as nat, height as nat, row as int).take(
                    pad + (i - first),
                ),
            decreases eighths.len() - i,
        {
            let above: usize = eighths[i].saturating_sub(base);
            let level: usize = if above > 8 { 8 } else { above };
            assert(shown[i - first] == eighths@[i as int]);
            assert(level as int == row_level(shown[i - first] as int, height as int, row as int));
            line.append(block_text(level));
            i += 1;
        }
        assert(line@ =~= chart_row(eighths@, width as nat, height as nat, row as int));
        rows.push(line);
        row += 1;
    }
    rows
}

/// Every row of a chart is exactly as wide as asked.
pub proof fn chart_rows_fill_the_width(eighths: Seq<usize>, width: nat, height: nat, row: int)
    ensures
        chart_row(eighths, width, height, row).len() == width,
{
}

/// What the rows from `row` down show of a bar of `u` eighths, in eighths.
pub open spec fn shown_below(u: int, height: int, row: int) -> int
    decreases height - row,
{
    if row >= height {
        0
    } else {
        row_level(u, height, row) + shown_below(u, height, row + 1)
    }
}

proof fn lemma_shown_below(u: int, height: int, row: int)
    requires
        0 <= u,
        0 <= row <= height,
    ensures
        shown_below(u, height, row) == clamped(u, 0, (height - row) * 8),
    decreases height - row,
{
    if row < height {
        lemma_shown_below(u, height, row + 1);
    }
}

/// A bar loses nothing between the rows: together they show all of it, up to the
/// height of the chart.
pub proof fn chart_bars_are_whole(u: int, height: int)
    requires
        0 <= u,
        0 <= height,
    ensures
        shown_below(u, height, 0) == clamped(u, 0, height * 8),
{
    lemma_shown_below(u, height, 0);
}

/// A row of a bar is full where the row above it shows anything.
pub proof fn chart_bars_are_solid(u: int, height: int, row: int)
    requires
        0 < row < height,
        row_level(u, height, row - 1) > 0,
    ensures
        row_level(u, height, row) == 8,
{
}

/// What is styled stays as it is between the codes, and is all there is without color.
pub proof fn styles_leave_the_text(color: bool, code: &str, s: &str, r: String)
    requires
        call_ensures(sgr, (color, code, s), r),
    ensures
        !color ==> r@ == s@,
        color ==> {
            let a = 3 + code@.len();
            &&& r@.len() == a + s@.len() + 4
            &&& r@[0] == '\x1b' && r@[1] == '[' && r@[a - 1] == 'm'
            &&& r@.subrange(2, a - 1) == code@
            &&& r@.subrange(a as int, (a + s@.len()) as int) == s@
            &&& r@.skip((a + s@.len()) as int) == seq!['\x1b', '[', '0', 'm']
        },
{
    reveal_strlit("\x1b[");
    reveal_strlit("m");
    reveal_strlit("\x1b[0m");
    if color {
        let a = 3 + code@.len();
        assert(r@.subrange(2, a - 1) =~= code@);
        assert(r@.subrange(a as int, (a + s@.len()) as int) =~= s@);
        assert(r@.skip((a + s@.len()) as int) =~= seq!['\x1b', '[', '0', 'm']);
    }
}

/// A rate is shown in Gbps from 1000 Mbps on, in Mbps from 1 Mbps on, else in kbps, and
/// gets the fewer digits behind the point the smaller the unit is.
pub proof fn units_go_by_thousands(mbps: Reading, r: (RateUnit, usize))
    requires
        call_ensures(rate_unit, (mbps,), r),
    ensures
        r == (RateUnit::Gbps, 2usize) <==> 0x408F_4000_0000_0000 <= mbps.key
            <= 0x7FF0_0000_0000_0000,
        r == (RateUnit::Mbps, 1usize) <==> 0x3FF0_0000_0000_0000 <= mbps.key
            < 0x408F_4000_0000_0000,
        r == (RateUnit::Kbps, 0usize) <==> mbps.key < 0x3FF0_0000_0000_0000 || mbps.key
            > 0x7FF0_0000_0000_0000,
{
}

/// A rate is written as its number and its unit.
pub proof fn rates_name_their_unit(mbps: Reading, number: &str, r: String, unit: (RateUnit, usize))
    requires
        call_ensures(rate_unit, (mbps,), unit),
        call_ensures(rate, (mbps, number), r),
    ensures
        r@ == number@ + match unit.0 {
            RateUnit::Gbps => " Gbps"@,
            RateUnit::Mbps => " Mbps"@,
            RateUnit::Kbps => " kbps"@,
        },
{
}

/// Milliseconds get a digit behind the point below 10, and none from there on.
pub proof fn short_times_are_finer(v: Reading, r: usize)
    requires
        call_ensures(ms_places, (v,), r),
    ensures
        r == if -0x7FF0_0000_0000_0001 <= v.key < 0x4024_0000_0000_0000 {
            1int
        } else {
            0
        },
{
}

proof fn lemma_near(num: nat, den: nat)
    requires
        0 < den,
    ensures
        -den <= 2 * (nearest(num, den) * den) - 2 * num <= den,
        2 * (num % den) == den ==> nearest(num, den) % 2 == 0,
{
    lemma_nearest_error(num, den);
}

proof fn lemma_last_bit(n: nat, unit: nat)
    requires
        0 < unit <= 0x1000,
        n < 0x1_0000_0000_0000_0000,
        unit == 1 || 0x10_0000_0000_0000 * unit <= n,
    ensures
        0 < last_bit(n, unit) <= 0x1000,
    decreases n - unit,
{
    if n >= 0x20_0000_0000_0000 * unit {
        assert(2 * unit <= 0x1000);
        lemma_last_bit(n, 2 * unit);
    }
}

proof fn lemma_as_double(n: nat)
    requires
        n < 0x1_0000_0000_0000_0000,
    ensures
        -0x800 <= as_double(n) - n <= 0x800,
{
    lemma_last_bit(n, 1);
    lemma_nearest_error(n, last_bit(n, 1));
}

proof fn lemma_hundredths(d: nat)
    requires
        0 < d <= 0x2_0000_0000_0000_0000,
    ensures
        -10_008_200 <= 2 * (rounded_quotient(d, 1_000_000_000, 100) * 10_000_000) - 2 * d
            <= 10_008_200,
{
    let den = 1_000_000_000nat;
    lemma_detour(d, den, 100);
    let (m, u) = magnified(d, den, 1);
    let x = 100 * nearest(m, den);
    lemma_nearest_error(x, u);
    let k = nearest(x, u);
    let e = 2 * (k * u) - 2 * x;
    let f = 2 * (x * den) - 2 * (u * (100 * d));
    assert(2 * (k * u) * den - 2 * (u * (100 * d)) == e * den + f) by (nonlinear_arith)
        requires
            e == 2 * (k * u) - 2 * x,
            f == 2 * (x * den) - 2 * (u * (100 * d)),
    ;
    let g = 2 * (k * den) - 2 * (100 * d);
    assert(g * u == e * den + f) by (nonlinear_arith)
        requires
            2 * (k * u) * den - 2 * (u * (100 * d)) == e * den + f,
            g == 2 * (k * den) - 2 * (100 * d),
    ;
    assert(-(u * den) <= e * den <= u * den) by (nonlinear_arith)
        requires
            -u <= e <= u,
            den > 0,
    ;
    assert(100 * den <= 820_000 * u) by (nonlinear_arith)
        requires
            0x10_0000_0000_0000 * 1_000_000_000 <= d * u,
            d <= 0x2_0000_0000_0000_0000,
            den == 1_000_000_000,
            u > 0,
    {
        assert(d * u <= 0x2_0000_0000_0000_0000 * u);
    }
    assert(-(den + 820_000) <= g <= den + 820_000) by (nonlinear_arith)
        requires
            -(u * den) - 820_000 * u <= g * u <= u * den + 820_000 * u,
            u > 0,
    ;
}

/// A size is written in whole MB below 1 GB, to the nearest and a half to the even one;
/// from there on in hundredths of a GB, to the nearest up to 2^53 bytes and never off by
/// more than a little over half a hundredth.
pub proof fn sizes_are_near(n: u64, r: String)
    requires
        call_ensures(bytes, (n,), r),
    ensures
        n < 1_000_000_000 ==> exists|k: nat|
            r@ == #[trigger] decimal_text(k) + " MB"@ && -1_000_000 <= 2 * (k * 1_000_000) - 2 * n
                <= 1_000_000 && (n % 1_000_000 == 500_000 ==> k % 2 == 0),
        n >= 1_000_000_000 ==> exists|k: nat|
            r@ == #[trigger] decimal_text(k / 100) + "."@ + two_digits(k % 100) + " GB"@
                && -10_020_000 <= 2 * (k * 10_000_000) - 2 * n <= 10_020_000 && (n
                < 0x20_0000_0000_0000 ==> -10_000_000 <= 2 * (k * 10_000_000) - 2 * n
                <= 10_000_000),
{
    sizes_are_rounded_to_the_nearest(n as nat);
    if n < 1_000_000_000 {
        let k = rounded_quotient(n as nat, 1_000_000, 1);
        lemma_near(n as nat, 1_000_000);
        assert(r@ == decimal_text(k) + " MB"@);
    } else {
        let d = as_double(n as nat);
        let k = rounded_quotient(d, 1_000_000_000, 100);
        lemma_as_double(n as nat);
        lemma_hundredths(d);
        lemma_near(n as nat, 10_000_000);
        assert(r@ == decimal_text(k / 100) + "."@ + two_digits(k % 100) + " GB"@);
    }
}

/// A duration is written in the two units that hold it: what is left of the smaller one
/// is less than one of the larger, and less than one of the smaller is lost.
pub proof fn durations_add_up(secs: u64, r: String, a: nat, b: nat)
    requires
        call_ensures(duration, (secs,), r),
        b < 60,
    ensures
        secs < 60 ==> r@ == decimal_text(secs as nat) + "s"@,
        60 <= secs < 3600 && a * 60 + b == secs ==> r@ == decimal_text(a) + "m"@ + two_digits(b)
            + "s"@,
        3600 <= secs && a * 3600 + b * 60 <= secs < a * 3600 + b * 60 + 60 ==> r@ == decimal_text(a)
            + "h"@ + two_digits(b) + "m"@,
{
}

/// How many eighths a character of a chart fills.
pub open spec fn level_of(c: char) -> int {
    if c == ' ' {
        0
    } else {
        c as int - 0x2580
    }
}

/// What the rows from `row` down show in one column, in eighths.
pub open spec fn column_sum(rows: Seq<String>, column: int, row: int) -> int
    decreases rows.len() - row,
{
    if row >= rows.len() {
        0
    } else {
        level_of(rows[row]@[column]) + column_sum(rows, column, row + 1)
    }
}

proof fn lemma_column(rows: Seq<String>, eighths: Seq<usize>, width: nat, k: int, row: int)
    requires
        0 <= k < width,
        k < eighths.len(),
        0 <= row <= rows.len(),
        forall|i: int|
            0 <= i < rows.len() ==> (#[trigger] rows[i])@ == chart_row(
                eighths,
                width,
                rows.len(),
                i,
            ),
    ensures
        column_sum(rows, width - 1 - k, row) == shown_below(
            eighths[eighths.len() - 1 - k] as int,
            rows.len() as int,
            row,
        ),
    decreases rows.len() - row,
{
    if row < rows.len() {
        lemma_column(rows, eighths, width, k, row + 1);
        let shown = newest(eighths, width);
        assert(shown[shown.len() - 1 - k] == eighths[eighths.len() - 1 - k]);
        assert(rows[row]@ == chart_row(eighths, width, rows.len(), row));
        assert(rows[row]@[width - 1 - k] == block(
            row_level(eighths[eighths.len() - 1 - k] as int, rows.len() as int, row),
        ));
    }
}

/// A chart has the rows and columns asked for. The column `k` from the right shows the
/// value `k` from the newest, all of it up to the height of the chart, in blocks of at
/// most 8 eighths that stand on full ones; left of the oldest value it is blank.
pub proof fn charts_show_every_value(
    eighths: Vec<usize>,
    width: usize,
    height: usize,
    rows: Vec<String>,
    k: int,
)
    requires
        call_ensures(chart, (&eighths, width, height), rows),
        0 <= k < width,
    ensures
        rows@.len() == height,
        forall|i: int| 0 <= i < height ==> (#[trigger] rows@[i])@.len() == width,
        k < eighths@.len() ==> {
            let u = eighths@[eighths@.len() - 1 - k];
            &&& column_sum(rows@, width - 1 - k, 0) == if u < 8 * height {
                u as int
            } else {
                8 * height
            }
            &&& forall|i: int|
                0 <= i < height ==> 0 <= level_of((#[trigger] rows@[i])@[width - 1 - k]) <= 8
            &&& forall|i: int, j: int|
                0 <= i < j < height && level_of((#[trigger] rows@[i])@[width - 1 - k]) > 0
                    ==> level_of((#[trigger] rows@[j])@[width - 1 - k]) == 8
        },
        k >= eighths@.len() ==> forall|i: int|
            0 <= i < height ==> (#[trigger] rows@[i])@[width - 1 - k] == ' ',
{
    if k < eighths@.len() {
        let u = eighths@[eighths@.len() - 1 - k] as int;
        lemma_column(rows@, eighths@, width as nat, k, 0);
        chart_bars_are_whole(u, height as int);
        let shown = newest(eighths@, width as nat);
        assert(shown[shown.len() - 1 - k] == eighths@[eighths@.len() - 1 - k]);
        assert forall|i: int| 0 <= i < height implies level_of(
            (#[trigger] rows@[i])@[width - 1 - k],
        ) == row_level(u, height as int, i) by {
            assert(rows@[i]@ == chart_row(eighths@, width as nat, height as nat, i));
            assert(rows@[i]@[width - 1 - k] == block(row_level(u, height as int, i)));
        }
    }
}

/// A sparkline shows each value in its place, by as many eighths as it has, but no
/// fewer than 1 and no more than 8.
pub proof fn sparklines_show_every_value(eighths: Vec<usize>, r: String, i: int)
    requires
        call_ensures(sparkline, (&eighths,), r),
    ensures
        r@.len() == eighths@.len(),
        0 <= i < eighths@.len() ==> level_of(r@[i]) == if eighths@[i] < 1 {
            1
        } else if eighths@[i] > 8 {
            8
        } else {
            eighths@[i] as int
        },
{
}

/// A progress bar has its width, of which the filled part comes first; color changes
/// nothing but how the two parts look.
pub proof fn progress_fills_from_the_left(
    filled: usize,
    width: usize,
    accent: Accent,
    plain: String,
    colored: String,
)
    requires
        call_ensures(progress, (false, filled, width, accent), plain),
        call_ensures(progress, (true, filled, width, accent), colored),
        filled <= width,
    ensures
        plain@.len() == width,
        forall|i: int| 0 <= i < filled ==> #[trigger] plain@[i] == '━',
        forall|i: int| filled <= i < width ==> #[trigger] plain@[i] == '─',
        colored@ == styled(true, accent.code(), plain@.take(filled as int)) + styled(
            true,
            "2"@,
            plain@.skip(filled as int),
        ),
{
    assert(plain@.take(filled as int) =~= run_of('━', filled as nat));
    assert(plain@.skip(filled as int) =~= run_of('─', (width - filled) as nat));
}

/// The newest values are the end of all values: as many as there is room for, and the
/// one `k` from the end is the one `k` from the end of all.
pub proof fn the_newest_end_the_list<T>(vals: Seq<T>, width: nat, k: int)
    ensures
        newest(vals, width).len() == if vals.len() < width {
            vals.len()
        } else {
            width
        },
        0 <= k < newest(vals, width).len() ==> newest(vals, width)[newest(vals, width).len() - 1
            - k] == vals[vals.len() - 1 - k],
{
}

/// Color needs a terminal whose user has not ruled it out.
pub proof fn color_needs_consent(is_terminal: bool, no_color_set: bool, color: bool)
    requires
        call_ensures(init_color, (is_terminal, no_color_set), color),
    ensures
        color <==> is_terminal && !no_color_set,
{
}

/// A terminal is as wide as it says, and 80 columns wide where it says nothing or 0.
pub proof fn terminals_are_as_wide_as_they_say(size: Option<(u16, u16)>, width: usize)
    requires
        call_ensures(term_width, (size,), width),
    ensures
        size matches Some(s) ==> (s.0 > 0 ==> width == s.0),
        size matches Some(s) ==> (s.0 == 0 ==> width == 80),
        size is None ==> width == 80,
{
}

/// Every style is an attribute of its own, and each accent is bold with a 1 before it.
pub proof fn styles_are_attributes(color: bool, s: &str, a: String, b: String, c: String, d: String)
    requires
        call_ensures(bold, (color, s), a),
        call_ensures(dim, (color, s), b),
        call_ensures(red, (color, s), c),
        call_ensures(yellow, (color, s), d),
    ensures
        color ==> a@ == "\x1b["@ + "1"@ + "m"@ + s@ + "\x1b[0m"@,
        color ==> b@ == "\x1b["@ + "2"@ + "m"@ + s@ + "\x1b[0m"@,
        color ==> c@ == "\x1b["@ + "31"@ + "m"@ + s@ + "\x1b[0m"@,
        color ==> d@ == "\x1b["@ + "33"@ + "m"@ + s@ + "\x1b[0m"@,
        !color ==> a@ == s@ && b@ == s@ && c@ == s@ && d@ == s@,
{
}

/// The accents are cyan and magenta, each in two weights.
pub proof fn accents_are_colors(accent: Accent, color: bool, s: &str, a: String, b: String)
    requires
        call_ensures(Accent::paint, (accent, color, s), a),
        call_ensures(Accent::paint_bold, (accent, color, s), b),
    ensures
        color && accent is Cyan ==> a@ == "\x1b["@ + "36"@ + "m"@ + s@ + "\x1b[0m"@ && b@ == "\x1b["@
            + "1;36"@ + "m"@ + s@ + "\x1b[0m"@,
        color && accent is Magenta ==> a@ == "\x1b["@ + "35"@ + "m"@ + s@ + "\x1b[0m"@ && b@
            == "\x1b["@ + "1;35"@ + "m"@ + s@ + "\x1b[0m"@,
        !color ==> a@ == s@ && b@ == s@,
{
}

/// A bar that is asked to be fuller than it is wide is full.
pub proof fn progress_stops_at_the_end(filled: usize, width: usize, accent: Accent, r: String, full: String)
    requires
        filled >= width,
        call_ensures(progress, (false, filled, width, accent), r),
        call_ensures(progress, (false, width, width, accent), full),
    ensures
        r@ == full@,
{
}

/// A time is written as its number and its unit.
pub proof fn times_name_their_unit(number: &str, r: String)
    requires
        call_ensures(ms, (number,), r),
    ensures
        r@ == number@ + " ms"@,
{
}

/// A letter, which ends a control sequence.
pub open spec fn letter(c: char) -> bool {
    'A' <= c <= 'Z' || 'a' <= c <= 'z'
}

/// Where a control sequence ends that reaches to `from`: behind its letter.
pub open spec fn sequence_end(s: Seq<char>, from: int) -> int
    decreases s.len() - from,
{
    if from >= s.len() {
        s.len() as int
    } else if letter(s[from]) {
        from + 1
    } else {
        sequence_end(s, from + 1)
    }
}

/// What a terminal shows of `s`: all but the control sequences.
pub open spec fn shown_of(s: Seq<char>) -> Seq<char>
    decreases s.len(),
{
    if s.len() == 0 {
        seq![]
    } else if s[0] != '\x1b' {
        seq![s[0]] + shown_of(s.skip(1))
    } else {
        let end = sequence_end(s, 1);
        if 0 < end <= s.len() {
            shown_of(s.skip(end))
        } else {
            seq![]
        }
    }
}

/// A text without control sequences.
pub open spec fn bare(s: Seq<char>) -> bool {
    forall|i: int| 0 <= i < s.len() ==> #[trigger] s[i] != '\x1b'
}

/// Whatever stands behind it, `s` shows as `t`.
#[verifier::opaque]
pub open spec fn shows(s: Seq<char>, t: Seq<char>) -> bool {
    forall|b: Seq<char>| #[trigger] shown_of(s + b) == t + shown_of(b)
}

/// A text without control sequences shows as it is.
pub proof fn bare_texts_show(s: Seq<char>)
    requires
        bare(s),
    ensures
        shows(s, s),
    decreases s.len(),
{
    reveal(shows);
    if s.len() > 0 {
        let rest = s.skip(1);
        bare_texts_show(rest);
        assert forall|b: Seq<char>| #[trigger] shown_of(s + b) == s + shown_of(b) by {
            assert((s + b).skip(1) =~= rest + b);
            assert(shown_of(rest + b) == rest + shown_of(b));
            assert(seq![s[0]] + (rest + shown_of(b)) =~= s + shown_of(b));
        }
    } else {
        assert forall|b: Seq<char>| #[trigger] shown_of(s + b) == s + shown_of(b) by {
            assert(s + b =~= b);
            assert(s + shown_of(b) =~= shown_of(b));
        }
    }
}

proof fn lemma_sequence_end(s: Seq<char>, from: int, last: int)
    requires
        0 <= from <= last < s.len(),
        forall|i: int| from <= i < last ==> !letter(#[trigger] s[i]),
        letter(s[last]),
    ensures
        sequence_end(s, from) == last + 1,
    decreases last - from,
{
    if from < last {
        lemma_sequence_end(s, from + 1, last);
    }
}

/// A control sequence shows as nothing.
pub proof fn sequences_do_not_show(s: Seq<char>)
    requires
        s.len() >= 2,
        s[0] == '\x1b',
        forall|i: int| 1 <= i < s.len() - 1 ==> !letter(#[trigger] s[i]),
        letter(s.last()),
    ensures
        shows(s, seq![]),
{
    reveal(shows);
    assert forall|b: Seq<char>| #[trigger] shown_of(s + b) == Seq::<char>::empty() + shown_of(b) by {
        let all = s + b;
        lemma_sequence_end(all, 1, s.len() - 1);
        assert(all.skip(s.len() as int) =~= b);
        assert(Seq::<char>::empty() + shown_of(b) =~= shown_of(b));
    }
}

/// Two texts one behind the other show one behind the other.
pub proof fn texts_show_in_turn(a: Seq<char>, x: Seq<char>, b: Seq<char>, y: Seq<char>)
    requires
        shows(a, x),
        shows(b, y),
    ensures
        shows(a + b, x + y),
{
    reveal(shows);
    assert forall|c: Seq<char>| #[trigger] shown_of((a + b) + c) == (x + y) + shown_of(c) by {
        assert((a + b) + c =~= a + (b + c));
        assert(shown_of(a + (b + c)) == x + shown_of(b + c));
        assert(x + (y + shown_of(c)) =~= (x + y) + shown_of(c));
    }
}

/// A style does not show: with it or without, the text stays.
pub proof fn styles_do_not_show(color: bool, code: Seq<char>, s: Seq<char>)
    requires
        forall|i: int| 0 <= i < code.len() ==> !letter(#[trigger] code[i]),
        bare(s),
    ensures
        shows(styled(color, code, s), s),
{
    reveal_strlit("\x1b[");
    reveal_strlit("m");
    reveal_strlit("\x1b[0m");
    bare_texts_show(s);
    if color {
        let open = "\x1b["@ + code + "m"@;
        let close = "\x1b[0m"@;
        sequences_do_not_show(open);
        sequences_do_not_show(close);
        texts_show_in_turn(open, seq![], s, s);
        texts_show_in_turn(open + s, Seq::<char>::empty() + s, close, seq![]);
        assert(Seq::<char>::empty() + s + Seq::<char>::empty() =~= s);
    }
}

/// The codes of the styles and accents hold no letters.
pub proof fn codes_have_no_letters(accent: Accent)
    ensures
        forall|i: int| 0 <= i < "1"@.len() ==> !letter(#[trigger] "1"@[i]),
        forall|i: int| 0 <= i < "2"@.len() ==> !letter(#[trigger] "2"@[i]),
        forall|i: int| 0 <= i < "31"@.len() ==> !letter(#[trigger] "31"@[i]),
        forall|i: int| 0 <= i < "33"@.len() ==> !letter(#[trigger] "33"@[i]),
        forall|i: int| 0 <= i < accent.code().len() ==> !letter(#[trigger] accent.code()[i]),
        forall|i: int|
            0 <= i < accent.bold_code().len() ==> !letter(#[trigger] accent.bold_code()[i]),
{
    reveal_strlit("1");
    reveal_strlit("2");
    reveal_strlit("31");
    reveal_strlit("33");
    reveal_strlit("36");
    reveal_strlit("35");
    reveal_strlit("1;36");
    reveal_strlit("1;35");
}

/// What `s` shows as is all that is shown of it.
pub proof fn shown_is_shown(s: Seq<char>, t: Seq<char>)
    requires
        shows(s, t),
    ensures
        shown_of(s) == t,
{
    reveal(shows);
    assert(s + Seq::<char>::empty() =~= s);
    assert(shown_of(s + Seq::<char>::empty()) == t + shown_of(Seq::<char>::empty()));
    assert(t + Seq::<char>::empty() =~= t);
}

/// A colored progress bar shows as the plain one.
pub proof fn colored_progress_shows_the_same(
    filled: usize,
    width: usize,
    accent: Accent,
    colored: String,
    plain: String,
)
    requires
        call_ensures(progress, (true, filled, width, accent), colored),
        call_ensures(progress, (false, filled, width, accent), plain),
    ensures
        shows(colored@, plain@),
        bare(plain@),
{
    let done = if filled < width {
        filled as nat
    } else {
        width as nat
    };
    codes_have_no_letters(accent);
    styles_do_not_show(true, accent.code(), run_of('━', done));
    styles_do_not_show(true, "2"@, run_of('─', (width - done) as nat));
    texts_show_in_turn(
        styled(true, accent.code(), run_of('━', done)),
        run_of('━', done),
        styled(true, "2"@, run_of('─', (width - done) as nat)),
        run_of('─', (width - done) as nat),
    );
}

/// Sizes, durations and numbers hold no control sequences.
pub proof fn figures_are_bare(n: nat)
    ensures
        bare(decimal_text(n)),
        bare(two_digits(n)),
        bare(bytes_text(n)),
        bare(duration_text(n)),
{
    reveal_strlit(".");
    reveal_strlit(" GB");
    reveal_strlit(" MB");
    reveal_strlit("h");
    reveal_strlit("m");
    reveal_strlit("s");
    lemma_digits_are_bare(n);
    let hundredths = rounded_quotient(as_double(n), 1_000_000_000, 100);
    lemma_digits_are_bare(hundredths / 100);
    lemma_digits_are_bare(hundredths % 100);
    lemma_digits_are_bare(rounded_quotient(n, 1_000_000, 1));
    lemma_digits_are_bare(n / 3600);
    lemma_digits_are_bare(n % 3600 / 60);
    lemma_digits_are_bare(n / 60);
    lemma_digits_are_bare(n % 60);
}

proof fn lemma_digits_are_bare(n: nat)
    ensures
        bare(decimal_text(n)),
        bare(two_digits(n)),
    decreases n,
{
    if n >= 10 {
        lemma_digits_are_bare(n / 10);
    }
}

} // verus!
