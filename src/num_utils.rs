use vstd::prelude::*;

verus! {

/// The character of a decimal digit.
pub open spec fn digit_char(d: nat) -> char {
    if d == 0 {
        '0'
    } else if d == 1 {
        '1'
    } else if d == 2 {
        '2'
    } else if d == 3 {
        '3'
    } else if d == 4 {
        '4'
    } else if d == 5 {
        '5'
    } else if d == 6 {
        '6'
    } else if d == 7 {
        '7'
    } else if d == 8 {
        '8'
    } else {
        '9'
    }
}

/// Decimal digits of `n`, most significant first, with no leading zeros (zero is `0`).
pub open spec fn decimal_digits(n: nat) -> Seq<char>
    decreases n,
{
    if n < 10 {
        seq![digit_char(n)]
    } else {
        decimal_digits(n / 10).push(digit_char(n % 10))
    }
}

/// The last three decimal digits of `n`, zeros included.
pub open spec fn three_digits(n: nat) -> Seq<char> {
    seq![digit_char((n / 100) % 10), digit_char((n / 10) % 10), digit_char(n % 10)]
}

/// Decimal digits of `n` with an underscore between groups of three, counted from the right.
pub open spec fn grouped_digits(n: nat) -> Seq<char>
    decreases n,
{
    if n < 1000 {
        decimal_digits(n)
    } else {
        grouped_digits(n / 1000) + seq!['_'] + three_digits(n % 1000)
    }
}

/// The text `" B"`.
pub open spec fn bytes_suffix() -> Seq<char> {
    seq![' ', 'B']
}

/// Relies on `String::push`: appends one character.
#[verifier::external_body]
pub(crate) fn push_char(s: &mut String, c: char)
    ensures
        final(s)@ == old(s)@.push(c),
{
    s.push(c)
}

fn digit_to_char(d: u128) -> (c: char)
    requires
        d < 10,
    ensures
        c == digit_char(d as nat),
{
    if d == 0 {
        '0'
    } else if d == 1 {
        '1'
    } else if d == 2 {
        '2'
    } else if d == 3 {
        '3'
    } else if d == 4 {
        '4'
    } else if d == 5 {
        '5'
    } else if d == 6 {
        '6'
    } else if d == 7 {
        '7'
    } else if d == 8 {
        '8'
    } else {
        '9'
    }
}

/// Appends the decimal digits of `n` to `s`.
pub fn push_decimal(s: &mut String, n: u128)
    ensures
        final(s)@ == old(s)@ + decimal_digits(n as nat),
    decreases n,
{
    if n >= 10 {
        push_decimal(s, n / 10);
    }
    push_char(s, digit_to_char(n % 10));
    proof {
        if n < 10 {
            assert(old(s)@ + decimal_digits(n as nat) =~= old(s)@.push(digit_char(n as nat)));
        } else {
            assert(old(s)@ + decimal_digits(n as nat) =~= (old(s)@ + decimal_digits(
                (n / 10) as nat,
            )).push(digit_char((n % 10) as nat)));
        }
    }
}

fn push_grouped(s: &mut String, n: u64)
    ensures
        final(s)@ == old(s)@ + grouped_digits(n as nat),
    decreases n,
{
    if n < 1000 {
        push_decimal(s, n as u128);
    } else {
        push_grouped(s, n / 1000);
        let r = (n % 1000) as u128;
        push_char(s, '_');
        push_char(s, digit_to_char((r / 100) % 10));
        push_char(s, digit_to_char((r / 10) % 10));
        push_char(s, digit_to_char(r % 10));
        proof {
            assert(old(s)@ + grouped_digits(n as nat) =~= old(s)@ + grouped_digits(
                (n / 1000) as nat,
            ) + seq!['_'] + three_digits((n % 1000) as nat));
        }
    }
}

/// The `w` last decimal digits of `f`, zeros included.
pub open spec fn padded_digits(f: nat, w: nat) -> Seq<char>
    decreases w,
{
    if w == 0 {
        Seq::empty()
    } else {
        padded_digits(f / 10, (w - 1) as nat).push(digit_char(f % 10))
    }
}

/// `s` without its trailing zeros.
pub open spec fn trim_zeros(s: Seq<char>) -> Seq<char>
    decreases s.len(),
{
    if s.len() > 0 && s.last() == '0' {
        trim_zeros(s.drop_last())
    } else {
        s
    }
}

/// The fractional part `f / 10^6` as a point and up to six digits; nothing when zero.
pub open spec fn fraction_text(f: nat) -> Seq<char> {
    if f == 0 {
        Seq::empty()
    } else {
        seq!['.'] + trim_zeros(padded_digits(f, 6))
    }
}

/// The number `t / 10^6`, negated when `neg`, written with at most six decimals and no
/// trailing zeros (`3`, `-0.5`, `1.581138`).
pub open spec fn fixed6_text(neg: bool, t: nat) -> Seq<char> {
    (if neg && t > 0 {
        seq!['-']
    } else {
        Seq::empty()
    }) + decimal_digits(t / 1_000_000) + fraction_text(t % 1_000_000)
}

pub open spec fn pow10(w: nat) -> nat
    decreases w,
{
    if w == 0 {
        1
    } else {
        10 * pow10((w - 1) as nat)
    }
}

fn push_padded(s: &mut String, f: u128, w: u32)
    ensures
        final(s)@ == old(s)@ + padded_digits(f as nat, w as nat),
    decreases w,
{
    if w > 0 {
        push_padded(s, f / 10, w - 1);
        push_char(s, digit_to_char(f % 10));
        proof {
            assert(old(s)@ + padded_digits(f as nat, w as nat) =~= (old(s)@ + padded_digits(
                (f / 10) as nat,
                (w - 1) as nat,
            )).push(digit_char((f % 10) as nat)));
        }
    } else {
        proof {
            assert(old(s)@ + padded_digits(f as nat, w as nat) =~= old(s)@);
        }
    }
}

proof fn lemma_digit_zero(d: nat)
    requires
        d < 10,
    ensures
        (digit_char(d) == '0') == (d == 0),
{
}

proof fn lemma_padded_nonzero_width(g: nat, w: nat)
    requires
        0 < g < pow10(w),
    ensures
        w > 0,
{
}

/// Appends `fraction_text(f)`.
fn push_fraction(s: &mut String, f: u128)
    requires
        f < 1_000_000,
    ensures
        final(s)@ == old(s)@ + fraction_text(f as nat),
{
    if f == 0 {
        proof {
            assert(old(s)@ + fraction_text(f as nat) =~= old(s)@);
        }
        return;
    }
    let mut g: u128 = f;
    let mut w: u32 = 6;
    proof {
        assert(pow10(0) == 1);
        assert(pow10(1) == 10);
        assert(pow10(2) == 100);
        assert(pow10(3) == 1000);
        assert(pow10(4) == 10000);
        assert(pow10(5) == 100000);
        assert(pow10(6) == 1_000_000);
    }
    while g % 10 == 0
        invariant
            0 < g < pow10(w as nat),
            w <= 6,
            trim_zeros(padded_digits(f as nat, 6)) == trim_zeros(padded_digits(g as nat, w as nat)),
        decreases w,
    {
        proof {
            lemma_padded_nonzero_width(g as nat, w as nat);
            let pd = padded_digits(g as nat, w as nat);
            lemma_digit_zero((g % 10) as nat);
            assert(pd.drop_last() == padded_digits((g / 10) as nat, (w - 1) as nat));
            assert(pd.last() == '0');
            assert(g / 10 > 0);
            assert(g / 10 < pow10((w - 1) as nat));
        }
        g = g / 10;
        w = w - 1;
    }
    proof {
        lemma_padded_nonzero_width(g as nat, w as nat);
        lemma_digit_zero((g % 10) as nat);
        let pd = padded_digits(g as nat, w as nat);
        assert(pd.last() != '0');
        assert(trim_zeros(pd) == pd);
    }
    push_char(s, '.');
    push_padded(s, g, w);
    proof {
        assert(old(s)@ + fraction_text(f as nat) =~= old(s)@.push('.') + padded_digits(
            g as nat,
            w as nat,
        ));
    }
}

/// Appends `fixed6_text(neg, t)`.
pub fn push_fixed6(s: &mut String, neg: bool, t: u128)
    ensures
        final(s)@ == old(s)@ + fixed6_text(neg, t as nat),
{
    if neg && t > 0 {
        push_char(s, '-');
    }
    let ghost s1 = s@;
    push_decimal(s, t / 1_000_000);
    push_fraction(s, t % 1_000_000);
    proof {
        assert(s1 == old(s)@ + (if neg && t > 0 {
            seq!['-']
        } else {
            Seq::empty()
        }));
        assert(final(s)@ =~= old(s)@ + fixed6_text(neg, t as nat));
    }
}

/// The decimal digits of `num`, grouped by three with underscores (`1_234_567`).
pub fn format_integer_with_underscore(num: u64) -> (r: String)
    ensures
        r@ == grouped_digits(num as nat),
{
    let mut s = String::new();
    push_grouped(&mut s, num);
    proof {
        assert(s@ =~= grouped_digits(num as nat));
    }
    s
}

/// A byte count written in full, grouped by three, with the unit: `123_456 B`.
pub fn file_size_fmt_no_scale(size: u64) -> (r: String)
    ensures
        r@ == grouped_digits(size as nat) + bytes_suffix(),
{
    let mut s = format_integer_with_underscore(size);
    push_char(&mut s, ' ');
    push_char(&mut s, 'B');
    proof {
        assert(s@ =~= grouped_digits(size as nat) + bytes_suffix());
    }
    s
}

/// The text that numfmt writes for `size` with metric scales, three decimals and the
/// suffix `B` (`1.024 kB`).
pub uninterp spec fn metric_size_text(size: u64) -> Seq<char>;

/// Relies on `numfmt::Formatter::fmt2` with `Scales::metric()`, `Precision::Decimals(3)` and
/// the suffix `B`: the text depends on the number alone.
#[verifier::external_body]
fn metric_size(size: u64) -> (r: String)
    ensures
        r@ == metric_size_text(size),
{
    let mut f = numfmt::Formatter::new()
        .scales(numfmt::Scales::metric())
        .precision(numfmt::Precision::Decimals(3))
        .suffix("B")
        .unwrap();
    f.fmt2(size).to_owned()
}

/// A byte count for display: below 1024 in full (`999 B`), above with a metric prefix.
pub fn file_size_fmt(size: u64) -> (r: String)
    ensures
        size < 1024 ==> r@ == decimal_digits(size as nat) + bytes_suffix(),
        size >= 1024 ==> r@ == metric_size_text(size),
{
    if size < 1024 {
        let mut s = String::new();
        push_decimal(&mut s, size as u128);
        push_char(&mut s, ' ');
        push_char(&mut s, 'B');
        proof {
            assert(s@ =~= decimal_digits(size as nat) + bytes_suffix());
        }
        s
    } else {
        metric_size(size)
    }
}

/// Whether a value is not a number; integer and boolean values never are.
pub trait IsNan {
    fn my_is_nan(&self) -> (r: bool);
}

impl IsNan for bool {
    fn my_is_nan(&self) -> (r: bool)
        ensures
            !r,
    {
        false
    }
}

impl IsNan for u8 {
    fn my_is_nan(&self) -> (r: bool)
        ensures
            !r,
    {
        false
    }
}

impl IsNan for u16 {
    fn my_is_nan(&self) -> (r: bool)
        ensures
            !r,
    {
        false
    }
}

impl IsNan for u32 {
    fn my_is_nan(&self) -> (r: bool)
        ensures
            !r,
    {
        false
    }
}

impl IsNan for u64 {
    fn my_is_nan(&self) -> (r: bool)
        ensures
            !r,
    {
        false
    }
}

impl IsNan for i8 {
    fn my_is_nan(&self) -> (r: bool)
        ensures
            !r,
    {
        false
    }
}

impl IsNan for i16 {
    fn my_is_nan(&self) -> (r: bool)
        ensures
            !r,
    {
        false
    }
}

impl IsNan for i32 {
    fn my_is_nan(&self) -> (r: bool)
        ensures
            !r,
    {
        false
    }
}

impl IsNan for i64 {
    fn my_is_nan(&self) -> (r: bool)
        ensures
            !r,
    {
        false
    }
}

} // verus!
