use crate::num_utils::{
    decimal_digits,
    fixed6_text,
    push_char,
    push_decimal,
    push_fixed6,
};
use vstd::arithmetic::div_mod::{
    lemma_div_by_multiple,
    lemma_div_is_ordered,
    lemma_fundamental_div_mod,
    lemma_fundamental_div_mod_converse_div,
};
use vstd::prelude::*;

verus! {

/// Number of histogram bins.
pub const N_BINS: usize = 30;

/// Bin centres are written as numerators over this denominator, `2 * (N_BINS - 1)`.
pub const BIN_CENTER_DENOM: i128 = 58;

/// One bar of a histogram: its centre is `center_numer / BIN_CENTER_DENOM`.
#[derive(Debug, Clone, Copy, PartialEq, Eq, Structural)]
pub struct HistogramBin {
    pub center_numer: i128,
    pub count: u64,
}

/// The outcome of analysing one dataset.
#[derive(Debug, PartialEq)]
pub enum AnalysisResult {
    /// Labelled values, in display order, and a histogram when the data allow one.
    Stats(Vec<(String, String)>, Option<Vec<HistogramBin>>),
    /// The dataset is not a non-empty one-dimensional numeric array.
    NotAvailable,
    /// Reading or analysing the dataset failed.
    Failed(String),
}

/// An element type whose values widen losslessly into `i128`.
pub trait Element: Copy {
    spec fn value(&self) -> int;

    fn widen(&self) -> (r: i128)
        ensures
            r == self.value(),
            -0x1_0000_0000_0000_0000 <= r <= 0xFFFF_FFFF_FFFF_FFFF,
    ;
}

impl Element for bool {
    open spec fn value(&self) -> int {
        if *self {
            1
        } else {
            0
        }
    }

    fn widen(&self) -> (r: i128) {
        if *self {
            1
        } else {
            0
        }
    }
}

impl Element for u8 {
    open spec fn value(&self) -> int {
        *self as int
    }

    fn widen(&self) -> (r: i128) {
        *self as i128
    }
}

impl Element for u16 {
    open spec fn value(&self) -> int {
        *self as int
    }

    fn widen(&self) -> (r: i128) {
        *self as i128
    }
}

impl Element for u32 {
    open spec fn value(&self) -> int {
        *self as int
    }

    fn widen(&self) -> (r: i128) {
        *self as i128
    }
}

impl Element for u64 {
    open spec fn value(&self) -> int {
        *self as int
    }

    fn widen(&self) -> (r: i128) {
        *self as i128
    }
}

impl Element for i8 {
    open spec fn value(&self) -> int {
        *self as int
    }

    fn widen(&self) -> (r: i128) {
        *self as i128
    }
}

impl Element for i16 {
    open spec fn value(&self) -> int {
        *self as int
    }

    fn widen(&self) -> (r: i128) {
        *self as i128
    }
}

impl Element for i32 {
    open spec fn value(&self) -> int {
        *self as int
    }

    fn widen(&self) -> (r: i128) {
        *self as i128
    }
}

impl Element for i64 {
    open spec fn value(&self) -> int {
        *self as int
    }

    fn widen(&self) -> (r: i128) {
        *self as i128
    }
}

/// A one-dimensional array of one of the integer or boolean element types.
pub enum NumericArray {
    Bool(Vec<bool>),
    U8(Vec<u8>),
    U16(Vec<u16>),
    U32(Vec<u32>),
    U64(Vec<u64>),
    I8(Vec<i8>),
    I16(Vec<i16>),
    I32(Vec<i32>),
    I64(Vec<i64>),
}

/// The elements of `v` as integers.
pub open spec fn values_of<T: Element>(v: Seq<T>) -> Seq<int> {
    Seq::new(v.len(), |i: int| v[i].value())
}

impl NumericArray {
    /// The elements as integers (`true` is 1).
    pub open spec fn values(&self) -> Seq<int> {
        match self {
            NumericArray::Bool(v) => values_of(v@),
            NumericArray::U8(v) => values_of(v@),
            NumericArray::U16(v) => values_of(v@),
            NumericArray::U32(v) => values_of(v@),
            NumericArray::U64(v) => values_of(v@),
            NumericArray::I8(v) => values_of(v@),
            NumericArray::I16(v) => values_of(v@),
            NumericArray::I32(v) => values_of(v@),
            NumericArray::I64(v) => values_of(v@),
        }
    }

    /// The elements widened to `i128`.
    pub fn widened(&self) -> (r: Vec<i128>)
        ensures
            r@.len() == self.values().len(),
            forall|i: int| 0 <= i < r@.len() ==> r@[i] as int == #[trigger] self.values()[i],
            forall|i: int| 0 <= i < r@.len() ==> in_element_range(#[trigger] r@[i] as int),
    {
        match self {
            NumericArray::Bool(v) => widen_all(v),
            NumericArray::U8(v) => widen_all(v),
            NumericArray::U16(v) => widen_all(v),
            NumericArray::U32(v) => widen_all(v),
            NumericArray::U64(v) => widen_all(v),
            NumericArray::I8(v) => widen_all(v),
            NumericArray::I16(v) => widen_all(v),
            NumericArray::I32(v) => widen_all(v),
            NumericArray::I64(v) => widen_all(v),
        }
    }
}

/// Every supported element lies in this range.
pub open spec fn in_element_range(x: int) -> bool {
    -0x1_0000_0000_0000_0000 <= x <= 0xFFFF_FFFF_FFFF_FFFF
}

fn widen_all<T: Element>(v: &Vec<T>) -> (r: Vec<i128>)
    ensures
        r@.len() == v@.len(),
        forall|i: int| 0 <= i < r@.len() ==> r@[i] as int == #[trigger] values_of(v@)[i],
        forall|i: int| 0 <= i < r@.len() ==> in_element_range(#[trigger] r@[i] as int),
{
    let mut r: Vec<i128> = Vec::new();
    let mut i: usize = 0;
    while i < v.len()
        invariant
            i <= v@.len(),
            r@.len() == i,
            forall|j: int| 0 <= j < i ==> r@[j] as int == #[trigger] values_of(v@)[j],
            forall|j: int| 0 <= j < i ==> in_element_range(#[trigger] r@[j] as int),
        decreases v@.len() - i,
    {
        r.push(v[i].widen());
        i = i + 1;
    }
    r
}

/// The sum of `s`.
pub open spec fn sum_of(s: Seq<int>) -> int
    decreases s.len(),
{
    if s.len() == 0 {
        0
    } else {
        sum_of(s.drop_last()) + s.last()
    }
}

/// The least element of a non-empty `s`.
pub open spec fn min_of(s: Seq<int>) -> int
    decreases s.len(),
{
    if s.len() <= 1 {
        s[0]
    } else if s.last() < min_of(s.drop_last()) {
        s.last()
    } else {
        min_of(s.drop_last())
    }
}

/// The greatest element of a non-empty `s`.
pub open spec fn max_of(s: Seq<int>) -> int
    decreases s.len(),
{
    if s.len() <= 1 {
        s[0]
    } else if s.last() > max_of(s.drop_last()) {
        s.last()
    } else {
        max_of(s.drop_last())
    }
}

/// The absolute value of `x`.
pub open spec fn abs(x: int) -> nat {
    if x < 0 {
        (-x) as nat
    } else {
        x as nat
    }
}

/// The mean of a non-empty `s`, times 10^6, its magnitude rounded down.
pub open spec fn mean_scaled(s: Seq<int>) -> nat {
    ((abs(sum_of(s)) as int * 1_000_000) / (s.len() as int)) as nat
}

/// The mean of a non-empty `s`, with at most six decimals.
pub open spec fn mean_text(s: Seq<int>) -> Seq<char> {
    fixed6_text(sum_of(s) < 0, mean_scaled(s))
}

/// The sum over `s` of `(n * x - total)^2`: `n^2` times the sum of squared deviations from
/// the mean when `total` is the sum and `n` the length.
pub open spec fn dev_sq_sum(s: Seq<int>, n: int, total: int) -> int
    decreases s.len(),
{
    if s.len() == 0 {
        0
    } else {
        dev_sq_sum(s.drop_last(), n, total) + (n * s.last() - total) * (n * s.last() - total)
    }
}

/// The sample variance of `s` (at least two elements) times 10^12, rounded down.
pub open spec fn variance_scaled(s: Seq<int>) -> int {
    let n = s.len() as int;
    (dev_sq_sum(s, n, sum_of(s)) * 1_000_000_000_000) / (n * n * (n - 1))
}

/// `t` is the integer square root of `x`.
pub open spec fn is_isqrt(t: int, x: int) -> bool {
    0 <= t && t * t <= x < (t + 1) * (t + 1)
}

/// The sample standard deviation of `s`, with at most six decimals (rounded down): the
/// integer square root of `variance_scaled(s)` written over 10^6. `NaN` for one element.
pub open spec fn std_text_holds(s: Seq<int>, text: Seq<char>) -> bool {
    if s.len() < 2 {
        text == nan_text()
    } else {
        exists|t: int| is_isqrt(t, variance_scaled(s)) && text == fixed6_text(false, t as nat)
    }
}

pub open spec fn nan_text() -> Seq<char> {
    seq!['N', 'a', 'N']
}

/// The bin of `x` among `N_BINS` bins spanning `lo..=hi` (for `lo < hi`).
pub open spec fn bin_of(x: int, lo: int, hi: int) -> int {
    ((x - lo) * 29) / (hi - lo)
}

/// How many elements of `s` fall in bin `b`.
pub open spec fn bin_count(s: Seq<int>, lo: int, hi: int, b: int) -> nat
    decreases s.len(),
{
    if s.len() == 0 {
        0
    } else {
        bin_count(s.drop_last(), lo, hi, b) + (if bin_of(s.last(), lo, hi) == b {
            1nat
        } else {
            0nat
        })
    }
}

/// The centre of bin `b` times `BIN_CENTER_DENOM`.
pub open spec fn bin_center_numer(lo: int, hi: int, b: int) -> int {
    58 * lo + (hi - lo) * (2 * b + 1)
}

/// The histogram of `s` has the bins of `hist`, in order.
pub open spec fn histogram_holds(s: Seq<int>, hist: Seq<HistogramBin>) -> bool {
    let lo = min_of(s);
    let hi = max_of(s);
    &&& hist.len() == N_BINS
    &&& forall|b: int|
        0 <= b < N_BINS ==> (#[trigger] hist[b]).count == bin_count(s, lo, hi, b)
            && hist[b].center_numer == bin_center_numer(lo, hi, b)
}

/// The sum of the counts of `h`.
pub open spec fn total_count(h: Seq<HistogramBin>) -> int
    decreases h.len(),
{
    if h.len() == 0 {
        0
    } else {
        total_count(h.drop_last()) + h.last().count
    }
}

/// The elements of `v` as integers.
pub open spec fn ints(v: Seq<i128>) -> Seq<int> {
    Seq::new(v.len(), |i: int| v[i] as int)
}

/// The largest element count this engine takes: far beyond what memory can hold.
pub open spec fn max_len() -> int {
    0x800_0000_0000_0000
}

proof fn lemma_prefix_step(v: Seq<i128>, i: int)
    requires
        0 <= i < v.len(),
    ensures
        ints(v).subrange(0, i + 1).drop_last() == ints(v).subrange(0, i),
        ints(v).subrange(0, i + 1).last() == v[i] as int,
        ints(v).subrange(0, i + 1).len() == i + 1,
{
    assert(ints(v).subrange(0, i + 1).drop_last() =~= ints(v).subrange(0, i));
}

/// The sum, least and greatest element of `v`.
fn sum_min_max(v: &Vec<i128>) -> (r: (i128, i128, i128))
    requires
        0 < v@.len() < max_len(),
        forall|i: int| 0 <= i < v@.len() ==> in_element_range(#[trigger] v@[i] as int),
    ensures
        r.0 == sum_of(ints(v@)),
        r.1 == min_of(ints(v@)),
        r.2 == max_of(ints(v@)),
        abs(r.0 as int) <= v@.len() * 0x1_0000_0000_0000_0000,
        forall|i: int| 0 <= i < v@.len() ==> r.1 <= #[trigger] v@[i] <= r.2,
        in_element_range(r.1 as int),
        in_element_range(r.2 as int),
{
    let mut total: i128 = v[0];
    let mut lo: i128 = v[0];
    let mut hi: i128 = v[0];
    proof {
        lemma_prefix_step(v@, 0);
        assert(ints(v@).subrange(0, 0) =~= Seq::<int>::empty());
        assert(sum_of(ints(v@).subrange(0, 0)) == 0);
    }
    let mut i: usize = 1;
    while i < v.len()
        invariant
            1 <= i <= v@.len(),
            v@.len() < max_len(),
            forall|j: int| 0 <= j < v@.len() ==> in_element_range(#[trigger] v@[j] as int),
            total == sum_of(ints(v@).subrange(0, i as int)),
            lo == min_of(ints(v@).subrange(0, i as int)),
            hi == max_of(ints(v@).subrange(0, i as int)),
            -(i * 0x1_0000_0000_0000_0000) <= total <= i * 0x1_0000_0000_0000_0000,
            forall|j: int| 0 <= j < i ==> lo <= #[trigger] v@[j] <= hi,
            in_element_range(lo as int),
            in_element_range(hi as int),
        decreases v@.len() - i,
    {
        let x = v[i];
        proof {
            lemma_prefix_step(v@, i as int);
        }
        total = total + x;
        if x < lo {
            lo = x;
        }
        if x > hi {
            hi = x;
        }
        i = i + 1;
    }
    proof {
        assert(ints(v@).subrange(0, v@.len() as int) =~= ints(v@));
    }
    (total, lo, hi)
}

/// `mean_scaled` of `n` elements summing to `total`.
fn mean_scaled_of(total: i128, n: usize) -> (t: u128)
    requires
        0 < n < max_len(),
        abs(total as int) <= n * 0x1_0000_0000_0000_0000,
    ensures
        t == (abs(total as int) as int * 1_000_000) / (n as int),
{
    let a: u128 = if total < 0 {
        (-total) as u128
    } else {
        total as u128
    };
    let nn = n as u128;
    let q = a / nn;
    let r = a % nn;
    proof {
        lemma_div_is_ordered(a as int, n * 0x1_0000_0000_0000_0000, n as int);
        lemma_div_by_multiple(0x1_0000_0000_0000_0000, n as int);
        assert(n * 0x1_0000_0000_0000_0000 == 0x1_0000_0000_0000_0000 * n);
        assert(r * 1_000_000 < 0x800_0000_0000_0000 * 1_000_000) by (nonlinear_arith)
            requires
                r < nn,
                nn < 0x800_0000_0000_0000,
        ;
    }
    let c = (r * 1_000_000) / nn;
    let e = (r * 1_000_000) % nn;
    let t = q * 1_000_000 + c;
    proof {
        lemma_fundamental_div_mod(a as int, nn as int);
        lemma_fundamental_div_mod(r * 1_000_000, nn as int);
        assert(a == nn * q + r);
        assert(r * 1_000_000 == nn * c + e);
        assert(a * 1_000_000 == (q * 1_000_000 + c) * nn + e) by (nonlinear_arith)
            requires
                a == nn * q + r,
                r * 1_000_000 == nn * c + e,
        ;
        lemma_fundamental_div_mod_converse_div(
            a * 1_000_000,
            nn as int,
            q * 1_000_000 + c,
            e as int,
        );
    }
    t
}

/// The integer square root of `x`.
fn isqrt(x: u128) -> (t: u128)
    ensures
        is_isqrt(t as int, x as int),
{
    let mut lo: u128 = 0;
    let mut hi: u128 = 0x1_0000_0000_0000_0000;
    proof {
        assert(0x1_0000_0000_0000_0000 * 0x1_0000_0000_0000_0000 > u128::MAX);
    }
    while hi - lo > 1
        invariant
            lo < hi <= 0x1_0000_0000_0000_0000,
            lo * lo <= x,
            x < hi * hi,
        decreases hi - lo,
    {
        let mid = lo + (hi - lo) / 2;
        proof {
            assert(mid * mid <= 0xFFFF_FFFF_FFFF_FFFF * 0xFFFF_FFFF_FFFF_FFFF) by (nonlinear_arith)
                requires
                    mid <= 0xFFFF_FFFF_FFFF_FFFF,
            ;
        }
        if mid * mid <= x {
            lo = mid;
        } else {
            hi = mid;
        }
    }
    proof {
        assert(hi == lo + 1);
    }
    lo
}

proof fn lemma_dev_prefix_mono(s: Seq<int>, n: int, total: int, i: int, j: int)
    requires
        0 <= i <= j <= s.len(),
    ensures
        dev_sq_sum(s.subrange(0, i), n, total) <= dev_sq_sum(s.subrange(0, j), n, total),
    decreases j - i,
{
    if i < j {
        lemma_dev_prefix_mono(s, n, total, i, j - 1);
        let p = s.subrange(0, j);
        assert(p.drop_last() =~= s.subrange(0, j - 1));
        let d = n * p.last() - total;
        assert(d * d >= 0) by (nonlinear_arith);
    }
}

/// `dev_sq_sum` of `v`, or `None` when it exceeds 128 bits.
fn dev_sq_sum_of(v: &Vec<i128>, total: i128) -> (r: Option<u128>)
    requires
        0 < v@.len() < max_len(),
        forall|i: int| 0 <= i < v@.len() ==> in_element_range(#[trigger] v@[i] as int),
        abs(total as int) <= v@.len() * 0x1_0000_0000_0000_0000,
    ensures
        match r {
            Some(d) => d == dev_sq_sum(ints(v@), v@.len() as int, total as int),
            None => dev_sq_sum(ints(v@), v@.len() as int, total as int) > u128::MAX,
        },
{
    let n = v.len() as i128;
    let ghost s = ints(v@);
    let ghost nn = v@.len() as int;
    let mut acc: u128 = 0;
    let mut i: usize = 0;
    proof {
        assert(s.subrange(0, 0) =~= Seq::<int>::empty());
    }
    while i < v.len()
        invariant
            i <= v@.len(),
            s == ints(v@),
            nn == v@.len(),
            n == nn,
            0 < nn < max_len(),
            forall|j: int| 0 <= j < v@.len() ==> in_element_range(#[trigger] v@[j] as int),
            abs(total as int) <= nn * 0x1_0000_0000_0000_0000,
            acc == dev_sq_sum(s.subrange(0, i as int), nn, total as int),
        decreases v@.len() - i,
    {
        let x = v[i];
        proof {
            lemma_prefix_step(v@, i as int);
            assert(-0x800_0000_0000_0000 * 0x1_0000_0000_0000_0000 <= n * x <= 0x800_0000_0000_0000
                * 0x1_0000_0000_0000_0000) by (nonlinear_arith)
                requires
                    0 < n < 0x800_0000_0000_0000,
                    -0x1_0000_0000_0000_0000 <= x <= 0xFFFF_FFFF_FFFF_FFFF,
            ;
            assert(-0x800_0000_0000_0000 * 0x1_0000_0000_0000_0000 <= total
                <= 0x800_0000_0000_0000 * 0x1_0000_0000_0000_0000) by (nonlinear_arith)
                requires
                    abs(total as int) <= nn * 0x1_0000_0000_0000_0000,
                    0 < nn < 0x800_0000_0000_0000,
            ;
        }
        let d = n * x - total;
        let m: u128 = if d < 0 {
            (-d) as u128
        } else {
            d as u128
        };
        proof {
            assert(m * m == d * d) by (nonlinear_arith)
                requires
                    m == d || m == -d,
            ;
            lemma_dev_prefix_mono(s, nn, total as int, i as int + 1, nn);
            assert(s.subrange(0, nn) =~= s);
        }
        let sq = match m.checked_mul(m) {
            Some(q) => q,
            None => {
                proof {
                    assert(dev_sq_sum(s.subrange(0, i as int + 1), nn, total as int) >= m * m)
                        by (nonlinear_arith)
                        requires
                            dev_sq_sum(s.subrange(0, i as int + 1), nn, total as int) == acc + d
                                * d,
                            m * m == d * d,
                            acc >= 0,
                    ;
                }
                return None;
            },
        };
        acc = match acc.checked_add(sq) {
            Some(a) => a,
            None => {
                return None;
            },
        };
        i = i + 1;
    }
    proof {
        assert(s.subrange(0, nn) =~= s);
    }
    Some(acc)
}

/// `variance_scaled` from the deviation sum `d` of `n` elements, or `None` when it or an
/// intermediate value exceeds 128 bits.
fn variance_scaled_of(d: u128, n: usize) -> (r: Option<u128>)
    requires
        2 <= n < max_len(),
    ensures
        match r {
            Some(x) => x == (d * 1_000_000_000_000) / (n * n * (n - 1)),
            None => !(n * n * (n - 1) < 0x1_0000_0000_0000_0000_0000 && (d * 1_000_000_000_000) / (n
                * n * (n - 1)) <= u128::MAX),
        },
{
    let nn = n as u128;
    proof {
        assert(nn * nn < 0x40_0000_0000_0000_0000_0000_0000_0000) by (nonlinear_arith)
            requires
                nn < 0x800_0000_0000_0000,
        ;
        assert(nn * nn * (nn - 1) > 0) by (nonlinear_arith)
            requires
                nn >= 2,
        ;
    }
    let n2 = nn * nn;
    let den = match n2.checked_mul(nn - 1) {
        Some(x) => x,
        None => {
            return None;
        },
    };
    if den >= 0x1_0000_0000_0000_0000_0000 {
        return None;
    }
    let a = d / den;
    let b = d % den;
    proof {
        assert(b * 1_000_000_000_000 < 0x1_0000_0000_0000_0000_0000 * 1_000_000_000_000)
            by (nonlinear_arith)
            requires
                b < den,
                den < 0x1_0000_0000_0000_0000_0000,
        ;
    }
    let c = (b * 1_000_000_000_000) / den;
    let e = (b * 1_000_000_000_000) % den;
    proof {
        lemma_fundamental_div_mod(d as int, den as int);
        lemma_fundamental_div_mod(b * 1_000_000_000_000, den as int);
        assert(d == den * a + b);
        assert(b * 1_000_000_000_000 == den * c + e);
        assert(d * 1_000_000_000_000 == (a * 1_000_000_000_000 + c) * den + e)
            by (nonlinear_arith)
            requires
                d == den * a + b,
                b * 1_000_000_000_000 == den * c + e,
        ;
        lemma_fundamental_div_mod_converse_div(
            d * 1_000_000_000_000,
            den as int,
            a * 1_000_000_000_000 + c,
            e as int,
        );
        assert(den == n * n * (n - 1)) by (nonlinear_arith)
            requires
                den == nn * nn * (nn - 1),
                nn == n,
        ;
    }
    let hi = match a.checked_mul(1_000_000_000_000) {
        Some(x) => x,
        None => {
            return None;
        },
    };
    match hi.checked_add(c) {
        Some(x) => Some(x),
        None => None,
    }
}


/// The sum of the counts in `s`.
pub open spec fn sum_counts(s: Seq<u64>) -> int
    decreases s.len(),
{
    if s.len() == 0 {
        0
    } else {
        sum_counts(s.drop_last()) + s.last()
    }
}

proof fn lemma_sum_counts_update(s: Seq<u64>, k: int, x: u64)
    requires
        0 <= k < s.len(),
    ensures
        sum_counts(s.update(k, x)) == sum_counts(s) - s[k] + x,
    decreases s.len(),
{
    let t = s.update(k, x);
    if k == s.len() - 1 {
        assert(t.drop_last() =~= s.drop_last());
    } else {
        lemma_sum_counts_update(s.drop_last(), k, x);
        assert(t.drop_last() =~= s.drop_last().update(k, x));
    }
}

/// The histogram of `v`, whose least and greatest elements `lo < hi` are given.
fn histogram_of(v: &Vec<i128>, lo: i128, hi: i128) -> (h: Vec<HistogramBin>)
    requires
        0 < v@.len() < max_len(),
        lo == min_of(ints(v@)),
        hi == max_of(ints(v@)),
        lo < hi,
        in_element_range(lo as int),
        in_element_range(hi as int),
        forall|i: int| 0 <= i < v@.len() ==> lo <= #[trigger] v@[i] <= hi,
    ensures
        histogram_holds(ints(v@), h@),
        total_count(h@) == v@.len(),
{
    let ghost s = ints(v@);
    let mut counts: Vec<u64> = Vec::new();
    let mut k: usize = 0;
    while k < N_BINS
        invariant
            k <= N_BINS,
            counts@.len() == k,
            forall|j: int| 0 <= j < k ==> #[trigger] counts@[j] == 0,
            sum_counts(counts@) == 0,
        decreases N_BINS - k,
    {
        proof {
            assert(counts@.push(0).drop_last() =~= counts@);
        }
        counts.push(0);
        k = k + 1;
    }
    let width: u128 = (hi - lo) as u128;
    let mut i: usize = 0;
    proof {
        assert(s.subrange(0, 0) =~= Seq::<int>::empty());
    }
    while i < v.len()
        invariant
            i <= v@.len(),
            v@.len() < max_len(),
            s == ints(v@),
            lo < hi,
            width == hi - lo,
            in_element_range(lo as int),
            in_element_range(hi as int),
            forall|j: int| 0 <= j < v@.len() ==> lo <= #[trigger] v@[j] <= hi,
            counts@.len() == N_BINS,
            forall|b: int|
                0 <= b < N_BINS ==> #[trigger] counts@[b] == bin_count(
                    s.subrange(0, i as int),
                    lo as int,
                    hi as int,
                    b,
                ),
            forall|b: int| 0 <= b < N_BINS ==> #[trigger] counts@[b] <= i,
            sum_counts(counts@) == i,
        decreases v@.len() - i,
    {
        let x = v[i];
        let off: u128 = (x - lo) as u128;
        proof {
            assert(off * 29 <= width * 29);
            lemma_div_is_ordered(off * 29, width * 29, width as int);
            lemma_div_by_multiple(29, width as int);
        }
        let b = ((off * 29) / width) as usize;
        proof {
            lemma_prefix_step(v@, i as int);
            assert(b as int == bin_of(x as int, lo as int, hi as int));
            lemma_sum_counts_update(counts@, b as int, (counts@[b as int] + 1) as u64);
        }
        counts[b] = counts[b] + 1;
        i = i + 1;
    }
    proof {
        assert(s.subrange(0, s.len() as int) =~= s);
    }
    let mut h: Vec<HistogramBin> = Vec::new();
    let mut b: usize = 0;
    proof {
        assert(counts@.subrange(0, 0) =~= Seq::<u64>::empty());
    }
    while b < N_BINS
        invariant
            b <= N_BINS,
            lo < hi,
            in_element_range(lo as int),
            in_element_range(hi as int),
            counts@.len() == N_BINS,
            h@.len() == b,
            forall|j: int|
                0 <= j < b ==> (#[trigger] h@[j]).count == counts@[j] && h@[j].center_numer
                    == bin_center_numer(lo as int, hi as int, j),
            total_count(h@) == sum_counts(counts@.subrange(0, b as int)),
        decreases N_BINS - b,
    {
        proof {
            assert((hi - lo) * (2 * b + 1) <= 0x2_0000_0000_0000_0000 * 59) by (nonlinear_arith)
                requires
                    0 < hi - lo <= 0x2_0000_0000_0000_0000,
                    b < 30,
            ;
        }
        let center = 58 * lo + (hi - lo) * (2 * b as i128 + 1);
        let bin = HistogramBin { center_numer: center, count: counts[b] };
        proof {
            assert(h@.push(bin).drop_last() =~= h@);
            assert(counts@.subrange(0, b as int + 1).drop_last() =~= counts@.subrange(0, b as int));
        }
        h.push(bin);
        b = b + 1;
    }
    proof {
        assert(counts@.subrange(0, N_BINS as int) =~= counts@);
    }
    h
}

/// The exact computation of the standard deviation fits in 128 bits.
pub open spec fn std_fits(s: Seq<int>) -> bool {
    let n = s.len() as int;
    &&& n * n * (n - 1) < 0x1_0000_0000_0000_0000_0000
    &&& dev_sq_sum(s, n, sum_of(s)) <= u128::MAX
    &&& variance_scaled(s) <= u128::MAX
}

pub open spec fn out_of_range_text() -> Seq<char> {
    seq!['n', '/', 'a']
}

/// The standard deviation text of `v`, whose sum is `total`.
fn std_text_of(v: &Vec<i128>, total: i128) -> (r: String)
    requires
        0 < v@.len() < max_len(),
        forall|i: int| 0 <= i < v@.len() ==> in_element_range(#[trigger] v@[i] as int),
        total == sum_of(ints(v@)),
        abs(total as int) <= v@.len() * 0x1_0000_0000_0000_0000,
    ensures
        std_text_holds(ints(v@), r@) || (r@ == out_of_range_text() && !std_fits(ints(v@))),
{
    proof {
        reveal_strlit("NaN");
        reveal_strlit("n/a");
    }
    if v.len() < 2 {
        let r = "NaN".to_string();
        proof {
            assert(r@ =~= nan_text());
        }
        return r;
    }
    let d = match dev_sq_sum_of(v, total) {
        Some(d) => d,
        None => {
            let r = "n/a".to_string();
            proof {
                assert(r@ =~= out_of_range_text());
            }
            return r;
        },
    };
    let x = match variance_scaled_of(d, v.len()) {
        Some(x) => x,
        None => {
            let r = "n/a".to_string();
            proof {
                assert(r@ =~= out_of_range_text());
            }
            return r;
        },
    };
    let t = isqrt(x);
    let mut r = String::new();
    push_fixed6(&mut r, false, t);
    proof {
        assert(r@ =~= fixed6_text(false, t as nat));
        assert(is_isqrt(t as int, variance_scaled(ints(v@))));
    }
    r
}

/// The statistics of the non-empty values `s` are `pairs` and `hist`: the count, the mean,
/// the count of values that are not numbers (none here), the sample standard deviation, and
/// the histogram when the values are not all equal.
pub open spec fn stats_hold(
    s: Seq<int>,
    pairs: Seq<(String, String)>,
    hist: Option<Vec<HistogramBin>>,
) -> bool {
    &&& pairs.len() == 4
    &&& pairs[0].0@ == "count"@ && pairs[0].1@ == decimal_digits(s.len())
    &&& pairs[1].0@ == "mean"@ && pairs[1].1@ == mean_text(s)
    &&& pairs[2].0@ == "NaN count"@ && pairs[2].1@ == decimal_digits(0)
    &&& pairs[3].0@ == "std"@
    &&& (std_text_holds(s, pairs[3].1@) || (pairs[3].1@ == out_of_range_text() && !std_fits(s)))
    &&& hist.is_some() == (min_of(s) < max_of(s))
    &&& hist.is_some() ==> histogram_holds(s, hist.unwrap()@)
    &&& hist.is_some() ==> total_count(hist.unwrap()@) + 0 == s.len()
}

/// An owned copy of a label.
fn label(text: &str) -> (r: String)
    ensures
        r@ == text@,
{
    text.to_string()
}

/// The statistics of non-empty values that widen into `i128`.
pub fn analyze_values(values: &Vec<i128>) -> (r: AnalysisResult)
    requires
        0 < values@.len() < max_len(),
        forall|i: int| 0 <= i < values@.len() ==> in_element_range(#[trigger] values@[i] as int),
    ensures
        match r {
            AnalysisResult::Stats(pairs, hist) => stats_hold(ints(values@), pairs@, hist),
            _ => false,
        },
{
    let ghost s = ints(values@);
    let n = values.len();
    let (total, lo, hi) = sum_min_max(values);
    let mut count_text = String::new();
    push_decimal(&mut count_text, n as u128);
    let mut mean = String::new();
    push_fixed6(&mut mean, total < 0, mean_scaled_of(total, n));
    let mut nan_count = String::new();
    push_decimal(&mut nan_count, 0);
    let std = std_text_of(values, total);
    proof {
        assert(count_text@ =~= decimal_digits(n as nat));
        assert(mean@ =~= mean_text(s));
        assert(nan_count@ =~= decimal_digits(0));
    }
    let mut pairs: Vec<(String, String)> = Vec::new();
    pairs.push((label("count"), count_text));
    pairs.push((label("mean"), mean));
    pairs.push((label("NaN count"), nan_count));
    pairs.push((label("std"), std));
    let hist = if lo < hi {
        Some(histogram_of(values, lo, hi))
    } else {
        None
    };
    AnalysisResult::Stats(pairs, hist)
}

/// The element type of a dataset.
#[derive(Debug, Clone, Copy, PartialEq, Eq, Structural)]
pub enum ElementKind {
    Bool,
    U8,
    U16,
    U32,
    U64,
    I8,
    I16,
    I32,
    I64,
    F32,
    F64,
    Other,
}

/// How a dataset is to be analysed.
#[derive(Debug, Clone, Copy, PartialEq, Eq, Structural)]
pub enum AnalysisPlan {
    /// Not a non-empty one-dimensional numeric array.
    NotAvailable,
    /// Integer or boolean elements, analysed exactly by `analyze`.
    Exact,
    /// Floating-point elements.
    Floating,
}

/// Whether an array of element type `kind`, with `ndim` dimensions and `size` elements, can be
/// analysed, and how.
pub fn analysis_plan(ndim: usize, size: usize, kind: ElementKind) -> (r: AnalysisPlan)
    ensures
        (ndim != 1 || size == 0 || kind == ElementKind::Other) ==> r == AnalysisPlan::NotAvailable,
        (ndim == 1 && size > 0 && (kind == ElementKind::F32 || kind == ElementKind::F64)) ==> r
            == AnalysisPlan::Floating,
        (ndim == 1 && size > 0 && kind != ElementKind::F32 && kind != ElementKind::F64 && kind
            != ElementKind::Other) ==> r == AnalysisPlan::Exact,
{
    if ndim != 1 || size == 0 {
        return AnalysisPlan::NotAvailable;
    }
    match kind {
        ElementKind::Other => AnalysisPlan::NotAvailable,
        ElementKind::F32 | ElementKind::F64 => AnalysisPlan::Floating,
        _ => AnalysisPlan::Exact,
    }
}

/// The statistics of a one-dimensional integer or boolean array; `NotAvailable` when it is
/// empty.
pub fn analyze(data: &NumericArray) -> (r: AnalysisResult)
    requires
        data.values().len() < max_len(),
    ensures
        data.values().len() == 0 ==> r == AnalysisResult::NotAvailable,
        data.values().len() > 0 ==> match r {
            AnalysisResult::Stats(pairs, hist) => stats_hold(data.values(), pairs@, hist),
            _ => false,
        },
{
    let values = data.widened();
    if values.len() == 0 {
        return AnalysisResult::NotAvailable;
    }
    proof {
        assert(ints(values@) =~= data.values());
    }
    analyze_values(&values)
}


} // verus!
