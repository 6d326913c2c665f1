//! Resampling of a magnitude sequence onto another length.
//!
//! Magnitudes are unsigned fixed-point values. Destination index `i` of `m`
//! lies at source position `i * n / m`, an exact fraction: its floor is
//! `(i * n) / m` and its fractional part is `((i * n) % m) / m`. Upsampling
//! blends the two neighbouring samples linearly; downsampling takes the
//! maximum over the source span that the destination index covers, so that
//! peaks survive.
use vstd::arithmetic::div_mod::{
    lemma_div_is_ordered,
    lemma_div_multiples_vanish,
    lemma_fundamental_div_mod,
};
use vstd::prelude::*;

verus! {

/// Bipolar blend `a * (1 - t) + b * t` at `t = num / den`, rounded down.
pub open spec fn blend(a: int, b: int, num: int, den: int) -> int {
    (a * (den - num) + b * num) / den
}

pub open spec fn min_int(a: int, b: int) -> int {
    if a <= b {
        a
    } else {
        b
    }
}

pub open spec fn max_int(a: int, b: int) -> int {
    if a >= b {
        a
    } else {
        b
    }
}

/// Largest value of a non-empty sequence.
pub open spec fn max_of(s: Seq<u32>) -> int
    decreases s.len(),
{
    if s.len() == 0 {
        0
    } else if s.len() == 1 {
        s[0] as int
    } else {
        max_int(max_of(s.drop_last()), s.last() as int)
    }
}

/// Smallest value of a non-empty sequence.
pub open spec fn min_of(s: Seq<u32>) -> int
    decreases s.len(),
{
    if s.len() == 0 {
        0
    } else if s.len() == 1 {
        s[0] as int
    } else {
        min_int(min_of(s.drop_last()), s.last() as int)
    }
}

/// Floor of the source position of destination index `i`.
pub open spec fn position_floor(n: int, m: int, i: int) -> int {
    (i * n) / m
}

/// Numerator over `m` of the fractional part of that position.
pub open spec fn position_rem(n: int, m: int, i: int) -> int {
    (i * n) % m
}

/// Ceiling of the source position of destination index `i`.
pub open spec fn position_ceil(n: int, m: int, i: int) -> int {
    if position_rem(n, m, i) == 0 {
        position_floor(n, m, i)
    } else {
        position_floor(n, m, i) + 1
    }
}

/// Linear interpolation of `src` at the position of destination index `i` of
/// `m`: the sample itself on a whole position, else the blend of the samples
/// on either side. A position past the last sample blends towards the last
/// sample.
pub open spec fn interpolated(src: Seq<u32>, m: int, i: int) -> int {
    let n = src.len() as int;
    let a = position_floor(n, m, i);
    let t = position_rem(n, m, i);
    let b = position_ceil(n, m, i);
    if t == 0 {
        src[a] as int
    } else {
        blend(src[a] as int, src[if b < n { b } else { n - 1 }] as int, t, m)
    }
}

/// Downsampled value of destination index `i > 0`: the maximum over the source
/// span from the ceiling of the previous index's position to the ceiling of
/// this one, both ends included, where that span holds more than one sample.
pub open spec fn pooled(src: Seq<u32>, m: int, i: int) -> int {
    let n = src.len() as int;
    let last = position_ceil(n, m, i - 1);
    let b = position_ceil(n, m, i);
    if last < b {
        max_of(src.subrange(last, b + 1))
    } else {
        interpolated(src, m, i)
    }
}

/// Destination index `i` of `src` resampled to length `m`.
pub open spec fn resampled_at(src: Seq<u32>, m: int, i: int) -> u32 {
    let n = src.len() as int;
    if m == n {
        src[i]
    } else if m > n {
        interpolated(src, m, i) as u32
    } else if i == 0 {
        src[0]
    } else {
        pooled(src, m, i) as u32
    }
}

/// `src` resampled to length `m`.
pub open spec fn resampled(src: Seq<u32>, m: nat) -> Seq<u32> {
    Seq::new(m, |i: int| resampled_at(src, m as int, i))
}

/// Why a sequence could not be resampled.
#[derive(Clone, Copy, Debug, PartialEq, Eq)]
pub enum ResampleError {
    /// There is nothing to resample from.
    EmptySource,
}

pub proof fn lemma_blend_between(a: int, b: int, num: int, den: int)
    requires
        0 <= num <= den,
        0 < den,
    ensures
        min_int(a, b) <= blend(a, b, num, den) <= max_int(a, b),
{
    let lo = min_int(a, b);
    let hi = max_int(a, b);
    let total = a * (den - num) + b * num;
    assert(lo * den <= total <= hi * den) by (nonlinear_arith)
        requires
            lo <= a <= hi,
            lo <= b <= hi,
            0 <= num <= den,
            total == a * (den - num) + b * num,
    ;
    lemma_div_is_ordered(lo * den, total, den);
    lemma_div_is_ordered(total, hi * den, den);
    assert(lo * den == den * lo) by (nonlinear_arith);
    assert(hi * den == den * hi) by (nonlinear_arith);
    lemma_div_multiples_vanish(lo, den);
    lemma_div_multiples_vanish(hi, den);
}

proof fn lemma_max_of_bounds(s: Seq<u32>)
    requires
        s.len() > 0,
    ensures
        forall|k: int| 0 <= k < s.len() ==> s[k] <= max_of(s),
        forall|k: int| 0 <= k < s.len() ==> min_of(s) <= s[k],
        min_of(s) >= 0,
        max_of(s) <= u32::MAX,
    decreases s.len(),
{
    if s.len() > 1 {
        lemma_max_of_bounds(s.drop_last());
        assert forall|k: int| 0 <= k < s.len() implies s[k] <= max_of(s) && min_of(s) <= s[k] by {
            if k < s.len() - 1 {
                assert(s[k] == s.drop_last()[k]);
            }
        }
    }
}

/// Bipolar blend of `a` and `b` at `t = num / den`, rounded down; it lies
/// between `a` and `b`.
pub fn bipolar_interpolation(a: u32, b: u32, num: u64, den: u64) -> (r: u32)
    requires
        0 < den,
        num <= den,
    ensures
        r as int == blend(a as int, b as int, num as int, den as int),
        min_int(a as int, b as int) <= r <= max_int(a as int, b as int),
{
    proof {
        lemma_blend_between(a as int, b as int, num as int, den as int);
        assert((a as int) * ((den - num) as int) <= u32::MAX * u64::MAX) by (nonlinear_arith)
            requires
                a <= u32::MAX,
                0 <= den - num <= u64::MAX,
        ;
        assert((b as int) * (num as int) <= u32::MAX * u64::MAX) by (nonlinear_arith)
            requires
                b <= u32::MAX,
                0 <= num <= u64::MAX,
        ;
    }
    let total: u128 = (a as u128) * ((den - num) as u128) + (b as u128) * (num as u128);
    (total / (den as u128)) as u32
}

/// Floor and remainder of the source position of destination index `i`.
fn locate(n: usize, m: usize, i: usize) -> (r: (usize, u64))
    requires
        0 < m,
        i <= m,
    ensures
        r.0 as int == position_floor(n as int, m as int, i as int),
        r.1 as int == position_rem(n as int, m as int, i as int),
        r.0 <= n,
        r.1 < m,
{
    proof {
        assert((i as int) * (n as int) <= u64::MAX * u64::MAX) by (nonlinear_arith)
            requires
                0 <= i <= u64::MAX,
                0 <= n <= u64::MAX,
        ;
        assert((i as int) * (n as int) <= (m as int) * (n as int)) by (nonlinear_arith)
            requires
                i <= m,
                0 <= n,
        ;
        lemma_div_is_ordered((i as int) * (n as int), (m as int) * (n as int), m as int);
        lemma_div_multiples_vanish(n as int, m as int);
    }
    let product: u128 = (i as u128) * (n as u128);
    let floor = (product / (m as u128)) as usize;
    let rem = (product % (m as u128)) as u64;
    (floor, rem)
}

/// Linear interpolation of `source` at the position of destination index
/// `i` of `m`.
fn interpolate_at(source: &[u32], m: usize, i: usize) -> (v: u32)
    requires
        0 < source@.len(),
        i < m,
    ensures
        v as int == interpolated(source@, m as int, i as int),
        min_of(source@) <= v <= max_of(source@),
{
    let n = source.len();
    let (a, t) = locate(n, m, i);
    proof {
        lemma_position_in_source(n as int, m as int, i as int);
        lemma_max_of_bounds(source@);
    }
    if t == 0 {
        source[a]
    } else {
        let b = if a + 1 < n {
            a + 1
        } else {
            n - 1
        };
        bipolar_interpolation(source[a], source[b], t, m as u64)
    }
}

/// A destination index below `m` lies at a source position below `n`.
proof fn lemma_position_in_source(n: int, m: int, i: int)
    requires
        0 < n,
        0 <= i < m,
    ensures
        0 <= position_floor(n, m, i) < n,
        0 <= position_rem(n, m, i) < m,
{
    lemma_fundamental_div_mod(i * n, m);
    assert(0 <= i * n < m * n) by (nonlinear_arith)
        requires
            0 <= i < m,
            0 < n,
    ;
    assert(position_floor(n, m, i) < n) by (nonlinear_arith)
        requires
            i * n == m * position_floor(n, m, i) + position_rem(n, m, i),
            0 <= position_rem(n, m, i),
            i * n < m * n,
            0 < m,
    ;
    assert(0 <= position_floor(n, m, i)) by (nonlinear_arith)
        requires
            i * n == m * position_floor(n, m, i) + position_rem(n, m, i),
            position_rem(n, m, i) < m,
            0 <= i * n,
            0 < m,
    ;
}


/// When downsampling, the ceiling of every destination position is a source
/// index.
proof fn lemma_ceil_in_source(n: int, m: int, i: int)
    requires
        0 < m < n,
        0 <= i < m,
    ensures
        0 <= position_ceil(n, m, i) < n,
{
    lemma_position_in_source(n, m, i);
    lemma_fundamental_div_mod(i * n, m);
    let f = position_floor(n, m, i);
    let r = position_rem(n, m, i);
    if r != 0 {
        assert(i * n <= m * n - n) by (nonlinear_arith)
            requires
                i <= m - 1,
                0 < n,
        ;
        assert(f < n - 1) by (nonlinear_arith)
            requires
                i * n == m * f + r,
                0 < r,
                i * n <= m * n - n,
                m < n,
                0 < m,
        ;
    }
}

/// When downsampling, the span of destination index `i > 0` starts at or
/// before the floor of its position.
proof fn lemma_span_start(n: int, m: int, i: int)
    requires
        0 < m < n,
        0 < i < m,
    ensures
        position_ceil(n, m, i - 1) <= position_floor(n, m, i),
{
    lemma_fundamental_div_mod((i - 1) * n, m);
    lemma_fundamental_div_mod(i * n, m);
    lemma_position_in_source(n, m, i - 1);
    lemma_position_in_source(n, m, i);
    let f0 = position_floor(n, m, i - 1);
    let r0 = position_rem(n, m, i - 1);
    let f1 = position_floor(n, m, i);
    let r1 = position_rem(n, m, i);
    assert(i * n == (i - 1) * n + n) by (nonlinear_arith);
    assert(position_ceil(n, m, i - 1) <= f1) by (nonlinear_arith)
        requires
            (i - 1) * n == m * f0 + r0,
            i * n == m * f1 + r1,
            i * n == (i - 1) * n + n,
            0 <= r0 < m,
            0 <= r1 < m,
            m < n,
            position_ceil(n, m, i - 1) == (if r0 == 0 {
                f0
            } else {
                f0 + 1
            }),
    ;
}

/// The maximum of a sequence grows by its next element.
proof fn lemma_max_of_extend(s: Seq<u32>, lo: int, k: int)
    requires
        0 <= lo < k < s.len(),
    ensures
        max_of(s.subrange(lo, k + 1)) == max_int(max_of(s.subrange(lo, k)), s[k] as int),
{
    assert(s.subrange(lo, k + 1).drop_last() =~= s.subrange(lo, k));
}

/// Downsampled value of destination index `i > 0`.
fn pool_at(source: &[u32], m: usize, i: usize) -> (v: u32)
    requires
        0 < m < source@.len(),
        0 < i < m,
    ensures
        v as int == pooled(source@, m as int, i as int),
{
    let n = source.len();
    let (f0, r0) = locate(n, m, i - 1);
    let (f1, r1) = locate(n, m, i);
    proof {
        lemma_ceil_in_source(n as int, m as int, i as int);
        lemma_ceil_in_source(n as int, m as int, (i - 1) as int);
    }
    let last = if r0 == 0 {
        f0
    } else {
        f0 + 1
    };
    let b = if r1 == 0 {
        f1
    } else {
        f1 + 1
    };
    if last < b {
        let mut best = source[last];
        let mut k = last + 1;
        assert(source@.subrange(last as int, k as int) =~= seq![source@[last as int]]);
        while k <= b
            invariant
                n == source@.len(),
                last < k <= b + 1,
                b < n,
                best as int == max_of(source@.subrange(last as int, k as int)),
            decreases b + 1 - k,
        {
            proof {
                lemma_max_of_extend(source@, last as int, k as int);
            }
            if source[k] > best {
                best = source[k];
            }
            k = k + 1;
        }
        best
    } else {
        interpolate_at(source, m, i)
    }
}

/// Destination index `i` of `source` resampled to length `m`.
fn value_at(source: &[u32], m: usize, i: usize) -> (v: u32)
    requires
        0 < source@.len(),
        i < m,
    ensures
        v == resampled_at(source@, m as int, i as int),
{
    let n = source.len();
    if m == n {
        source[i]
    } else if m > n {
        interpolate_at(source, m, i)
    } else if i == 0 {
        source[0]
    } else {
        pool_at(source, m, i)
    }
}

/// Resamples `source` to `destination_length` values: a copy at equal
/// lengths, linear interpolation when upsampling, max-pooling when
/// downsampling. Fails on an empty source.
pub fn resample(source: &[u32], destination_length: usize) -> (result: Result<
    Vec<u32>,
    ResampleError,
>)
    ensures
        match result {
            Ok(values) => source@.len() > 0 && values@ == resampled(
                source@,
                destination_length as nat,
            ),
            Err(e) => e == ResampleError::EmptySource && source@.len() == 0,
        },
{
    if source.len() == 0 {
        return Err(ResampleError::EmptySource);
    }
    let mut values: Vec<u32> = Vec::new();
    let mut i: usize = 0;
    while i < destination_length
        invariant
            0 < source@.len(),
            i <= destination_length,
            values@ =~= resampled(source@, destination_length as nat).take(i as int),
        decreases destination_length - i,
    {
        let v = value_at(source, destination_length, i);
        values.push(v);
        i = i + 1;
    }
    assert(values@ =~= resampled(source@, destination_length as nat));
    Ok(values)
}

/// Overwrites `destination` with `source` resampled to the destination's
/// length. The source may be empty only when the destination is.
pub fn rescale(source: &[u32], destination: &mut [u32])
    requires
        source@.len() > 0 || old(destination)@.len() == 0,
    ensures
        final(destination)@ == resampled(source@, old(destination)@.len()),
{
    let m = destination.len();
    let ghost target = resampled(source@, m as nat);
    let mut i: usize = 0;
    while i < m
        invariant
            source@.len() > 0 || m == 0,
            m == destination@.len(),
            i <= m,
            target == resampled(source@, m as nat),
            forall|k: int| 0 <= k < i ==> destination@[k] == #[trigger] target[k],
        decreases m - i,
    {
        let v = value_at(source, m, i);
        destination[i] = v;
        i = i + 1;
    }
    assert(destination@ =~= target);
}

/// Linear interpolation stays between the two samples that it blends, and so
/// between the smallest and the largest sample.
proof fn lemma_interpolated_within(src: Seq<u32>, m: int, i: int)
    requires
        0 < src.len(),
        0 <= i < m,
    ensures
        ({
            let n = src.len() as int;
            let a = position_floor(n, m, i);
            let b = position_ceil(n, m, i);
            let b1 = if b < n {
                b
            } else {
                n - 1
            };
            &&& 0 <= a < n
            &&& 0 <= b1 < n
            &&& interpolated(src, m, i) <= max_int(src[a] as int, src[b1] as int)
        }),
        min_of(src) <= interpolated(src, m, i) <= max_of(src),
{
    let n = src.len() as int;
    lemma_position_in_source(n, m, i);
    lemma_max_of_bounds(src);
    let a = position_floor(n, m, i);
    let b = position_ceil(n, m, i);
    let b1 = if b < n {
        b
    } else {
        n - 1
    };
    lemma_blend_between(src[a] as int, src[b1] as int, position_rem(n, m, i), m);
}

/// Resampling to the source's own length gives the source back.
pub proof fn lemma_resample_identity(src: Seq<u32>)
    requires
        src.len() > 0,
    ensures
        resampled(src, src.len()) == src,
{
    assert(resampled(src, src.len()) =~= src);
}

/// A sequence whose elements are all at most `x` has its maximum at most `x`.
proof fn lemma_max_of_at_most(s: Seq<u32>, x: int)
    requires
        s.len() > 0,
        forall|k: int| 0 <= k < s.len() ==> s[k] <= x,
    ensures
        max_of(s) <= x,
    decreases s.len(),
{
    if s.len() > 1 {
        lemma_max_of_at_most(s.drop_last(), x);
    }
}

/// Resampling never leaves the range of the source: every resampled value
/// lies between the smallest and the largest source value. In particular,
/// upsampling never produces a value outside that range.
pub proof fn lemma_resampled_within_range(src: Seq<u32>, m: nat)
    requires
        0 < src.len(),
    ensures
        forall|i: int|
            0 <= i < m ==> min_of(src) <= #[trigger] resampled(src, m)[i] <= max_of(src),
{
    let n = src.len() as int;
    lemma_max_of_bounds(src);
    assert forall|i: int| 0 <= i < m implies min_of(src) <= #[trigger] resampled(src, m)[i]
        <= max_of(src) by {
        lemma_interpolated_within(src, m as int, i);
        if m < n && i > 0 {
            let last = position_ceil(n, m as int, i - 1);
            let b = position_ceil(n, m as int, i);
            lemma_ceil_in_source(n, m as int, i);
            lemma_ceil_in_source(n, m as int, i - 1);
            if last < b {
                let span = src.subrange(last, b + 1);
                lemma_max_of_bounds(span);
                assert(span[0] == src[last]);
                assert forall|k: int| 0 <= k < span.len() implies span[k] <= max_of(src) by {
                    assert(span[k] == src[last + k]);
                }
                lemma_max_of_at_most(span, max_of(src));
            }
        }
    }
}

/// Downsampling dominates linear interpolation: every resampled value is at
/// least what linear interpolation gives at the same position.
pub proof fn lemma_downsampling_dominates_interpolation(src: Seq<u32>, m: nat)
    requires
        0 < m < src.len(),
    ensures
        forall|i: int|
            0 <= i < m ==> interpolated(src, m as int, i) <= #[trigger] resampled(src, m)[i],
{
    let n = src.len() as int;
    assert forall|i: int| 0 <= i < m implies interpolated(src, m as int, i)
        <= #[trigger] resampled(src, m)[i] by {
        lemma_interpolated_within(src, m as int, i);
        if i == 0 {
            assert(position_floor(n, m as int, 0) == 0) by (nonlinear_arith)
                requires
                    m > 0,
            ;
            assert(position_rem(n, m as int, 0) == 0) by (nonlinear_arith)
                requires
                    m > 0,
            ;
        } else {
            let last = position_ceil(n, m as int, i - 1);
            let a = position_floor(n, m as int, i);
            let b = position_ceil(n, m as int, i);
            lemma_ceil_in_source(n, m as int, i);
            lemma_span_start(n, m as int, i);
            if last < b {
                let span = src.subrange(last, b + 1);
                lemma_max_of_bounds(span);
                assert(span[a - last] == src[a]);
                assert(span[b - last] == src[b]);
            }
        }
    }
}

} // verus!
