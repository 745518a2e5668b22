use vstd::prelude::*;

verus! {

/// A product of two integers of magnitude at most `m` has magnitude at most
/// `m * m`.
pub proof fn lemma_product_bound(a: int, b: int, m: int)
    requires
        -m <= a <= m,
        -m <= b <= m,
    ensures
        -(m * m) <= a * b <= m * m,
{
    assert(-(m * m) <= a * b <= m * m) by (nonlinear_arith)
        requires
            -m <= a <= m,
            -m <= b <= m,
    ;
}

/// A fraction of two integers. It stands for `num / den` where `den` is
/// positive; two fractions of different terms may stand for the same value.
#[derive(Debug, Clone, Copy, PartialEq, Eq, Structural)]
pub struct Ratio {
    pub num: i64,
    pub den: i64,
}

impl Ratio {
    /// The denominator is positive.
    pub open spec fn wf(&self) -> bool {
        self.den > 0
    }

    /// `self` is strictly below `other` in value.
    pub open spec fn spec_lt(&self, other: &Ratio) -> bool {
        self.num * other.den < other.num * self.den
    }

    /// `self` is at most `other` in value.
    pub open spec fn spec_le(&self, other: &Ratio) -> bool {
        self.num * other.den <= other.num * self.den
    }

    /// `self` and `other` have the same value.
    pub open spec fn same_value(&self, other: &Ratio) -> bool {
        self.num * other.den == other.num * self.den
    }

    /// The value zero.
    pub fn zero() -> (r: Ratio)
        ensures
            r == (Ratio { num: 0, den: 1 }),
    {
        Ratio { num: 0, den: 1 }
    }

    /// Whether the denominator is positive.
    pub fn is_valid(&self) -> (r: bool)
        ensures
            r == self.wf(),
    {
        self.den > 0
    }

    /// Whether `self` is strictly below `other`.
    pub fn lt(&self, other: &Ratio) -> (r: bool)
        ensures
            r == self.spec_lt(other),
    {
        proof {
            lemma_product_bound(self.num as int, other.den as int, 0x8000_0000_0000_0000);
            lemma_product_bound(other.num as int, self.den as int, 0x8000_0000_0000_0000);
        }
        let a: i128 = (self.num as i128) * (other.den as i128);
        let b: i128 = (other.num as i128) * (self.den as i128);
        a < b
    }
}

/// The number of bins into which the observations are sorted.
pub const NUM_BINS: usize = 1000;

/// The greatest number of observations for which the variances can be
/// compared exactly.
pub const MAX_SAMPLES: usize = 100_000;

/// An inter-class variance as a fraction, in squared bins. The denominator is
/// positive.
#[derive(Debug, Clone, Copy, PartialEq, Eq, Structural)]
pub struct Variance {
    pub num: u128,
    pub den: u128,
}

/// The value of an observation once it is limited to the range from 0 to 1.
pub open spec fn spec_clamp(v: Ratio) -> Ratio {
    if v.num <= 0 {
        Ratio { num: 0, den: 1 }
    } else if v.num >= v.den {
        Ratio { num: 1, den: 1 }
    } else {
        v
    }
}

/// The bin of an observation: its value, limited to the range from 0 to 1,
/// times `NUM_BINS - 1`, rounded down.
pub open spec fn spec_bin(v: Ratio) -> int {
    if v.num <= 0 {
        0
    } else if v.num >= v.den {
        NUM_BINS - 1
    } else {
        (v.num * (NUM_BINS - 1)) / (v.den as int)
    }
}

/// How many of the observations fall into bin `b`.
pub open spec fn count_in_bin(values: Seq<Ratio>, b: int) -> int
    decreases values.len(),
{
    if values.len() == 0 {
        0
    } else {
        count_in_bin(values.drop_last(), b) + if spec_bin(values.last()) == b {
            1int
        } else {
            0int
        }
    }
}

/// How many of the observations fall into the bins up to and including `i`.
pub open spec fn count_le(values: Seq<Ratio>, i: int) -> int
    decreases i + 1,
{
    if i < 0 {
        0
    } else {
        count_le(values, i - 1) + count_in_bin(values, i)
    }
}

/// The sum of the bins of the observations that fall into the bins up to
/// and including `i`.
pub open spec fn moment_le(values: Seq<Ratio>, i: int) -> int
    decreases i + 1,
{
    if i < 0 {
        0
    } else {
        moment_le(values, i - 1) + i * count_in_bin(values, i)
    }
}

/// Whether the split after bin `i` leaves observations on both sides.
pub open spec fn split_valid(values: Seq<Ratio>, i: int) -> bool {
    0 < count_le(values, i) < values.len()
}

/// The numerator of the inter-class variance of the split after bin `i`. With
/// `n` observations and moment `m` up to the split, `N` and `M` in all, the
/// variance `n (N - n) (m / n - (M - m) / (N - n))^2` is the square of
/// `m N - M n` over `n (N - n)`.
pub open spec fn split_num(values: Seq<Ratio>, i: int) -> int {
    let d = moment_le(values, i) * values.len() - moment_le(values, NUM_BINS - 1) * count_le(
        values,
        i,
    );
    d * d
}

/// The denominator of the inter-class variance of the split after bin `i`.
pub open spec fn split_den(values: Seq<Ratio>, i: int) -> int {
    count_le(values, i) * (values.len() - count_le(values, i))
}

/// Whether the split after bin `i` separates the observations with a
/// positive variance.
pub open spec fn split_counts(values: Seq<Ratio>, i: int) -> bool {
    split_valid(values, i) && split_num(values, i) > 0
}

/// Whether no split separates the observations.
pub open spec fn no_split(values: Seq<Ratio>) -> bool {
    forall|i: int| 0 <= i < NUM_BINS - 1 ==> !#[trigger] split_counts(values, i)
}

/// Whether the split after bin `i` has the greatest variance of all, and is
/// the first to have it.
pub open spec fn is_best_split(values: Seq<Ratio>, i: int) -> bool {
    &&& 0 <= i < NUM_BINS - 1
    &&& split_counts(values, i)
    &&& forall|j: int|
        0 <= j < i && #[trigger] split_counts(values, j) ==> split_num(values, j) * split_den(
            values,
            i,
        ) < split_num(values, i) * split_den(values, j)
    &&& forall|j: int|
        i < j < NUM_BINS - 1 && #[trigger] split_counts(values, j) ==> split_num(values, j)
            * split_den(values, i) <= split_num(values, i) * split_den(values, j)
}

/// Whether every observation is `v` once it is limited to the range from 0
/// to 1.
pub open spec fn all_clamp_to(values: Seq<Ratio>, v: Ratio) -> bool {
    forall|k: int| 0 <= k < values.len() ==> spec_clamp(#[trigger] values[k]) == v
}

/// Whether the observations are all the same once they are limited to the
/// range from 0 to 1.
pub open spec fn is_uniform(values: Seq<Ratio>) -> bool {
    exists|v: Ratio| all_clamp_to(values, v)
}

/// The threshold that splits the observations: the upper boundary of the
/// bin after which the best split falls, as a fraction of `NUM_BINS - 1`.
/// Where no split separates the observations it is the one value that all
/// of them have once limited to the range from 0 to 1, and zero where they
/// differ or where there is no observation.
pub open spec fn spec_otsu_threshold(values: Seq<Ratio>) -> Ratio {
    if values.len() == 0 {
        Ratio { num: 0, den: 1 }
    } else if no_split(values) {
        if is_uniform(values) {
            choose|v: Ratio| all_clamp_to(values, v)
        } else {
            Ratio { num: 0, den: 1 }
        }
    } else {
        Ratio { num: ((choose|i: int| is_best_split(values, i)) + 1) as i64, den: 999 }
    }
}

/// The inter-class variance of the best split of the observations, and zero
/// where no split separates them.
pub open spec fn spec_otsu_variance(values: Seq<Ratio>) -> Variance {
    if no_split(values) {
        Variance { num: 0, den: 1 }
    } else {
        let i = choose|i: int| is_best_split(values, i);
        Variance { num: split_num(values, i) as u128, den: split_den(values, i) as u128 }
    }
}

/// The greatest numerator of a variance of at most `MAX_SAMPLES`
/// observations.
pub const MAX_VARIANCE_NUM: u128 = 1_000_000_000_000_000_000_000_000_000;

/// The greatest denominator of a variance of at most `MAX_SAMPLES`
/// observations.
pub const MAX_VARIANCE_DEN: u128 = 10_000_000_000;

/// Whether variance `m` is positive and the greatest of all, and is the
/// first to be it.
pub open spec fn is_first_best_variance(vars: Seq<Variance>, m: int) -> bool {
    &&& 0 <= m < vars.len()
    &&& vars[m].num > 0
    &&& forall|k: int|
        0 <= k < m ==> (#[trigger] vars[k]).num * vars[m].den < vars[m].num * vars[k].den
    &&& forall|k: int|
        m < k < vars.len() ==> (#[trigger] vars[k]).num * vars[m].den <= vars[m].num * vars[k].den
}

/// At most one variance is the first of the greatest.
pub proof fn lemma_first_best_variance_unique(vars: Seq<Variance>, a: int, b: int)
    requires
        is_first_best_variance(vars, a),
        is_first_best_variance(vars, b),
    ensures
        a == b,
{
}

/// The first of the greatest variances, if that variance is positive.
pub fn first_best_variance(vars: &Vec<Variance>) -> (r: Option<usize>)
    requires
        forall|k: int|
            0 <= k < vars@.len() ==> (#[trigger] vars@[k]).num <= MAX_VARIANCE_NUM && 0
                < vars@[k].den <= MAX_VARIANCE_DEN,
    ensures
        r matches Some(m) ==> is_first_best_variance(vars@, m as int),
        r.is_none() ==> forall|m: int| !#[trigger] is_first_best_variance(vars@, m),
{
    let n: usize = vars.len();
    let mut found: bool = false;
    let mut best: usize = 0;
    let mut best_num: u128 = 0;
    let mut best_den: u128 = 1;
    let mut j: usize = 0;
    while j < n
        invariant
            j <= n,
            n == vars@.len(),
            forall|k: int|
                0 <= k < vars@.len() ==> (#[trigger] vars@[k]).num <= MAX_VARIANCE_NUM && 0
                    < vars@[k].den <= MAX_VARIANCE_DEN,
            best_num <= MAX_VARIANCE_NUM,
            0 < best_den <= MAX_VARIANCE_DEN,
            !found ==> best_num == 0 && best_den == 1 && forall|k: int|
                0 <= k < j ==> (#[trigger] vars@[k]).num == 0,
            found ==> best < j && best_num == vars@[best as int].num && best_den
                == vars@[best as int].den && is_first_best_variance(
                vars@.take(j as int),
                best as int,
            ),
        decreases n - j,
    {
        let v: Variance = vars[j];
        proof {
            assert(v.num * best_den <= MAX_VARIANCE_NUM * MAX_VARIANCE_DEN) by (nonlinear_arith)
                requires
                    0 <= v.num <= MAX_VARIANCE_NUM,
                    0 <= best_den <= MAX_VARIANCE_DEN,
            ;
            assert(best_num * v.den <= MAX_VARIANCE_NUM * MAX_VARIANCE_DEN) by (nonlinear_arith)
                requires
                    0 <= best_num <= MAX_VARIANCE_NUM,
                    0 <= v.den <= MAX_VARIANCE_DEN,
            ;
        }
        if v.num * best_den > best_num * v.den {
            proof {
                let t = vars@.take(j + 1);
                assert(v.num > 0) by (nonlinear_arith)
                    requires
                        v.num * best_den > best_num * v.den,
                        best_num >= 0,
                        v.den > 0,
                        v.num >= 0,
                ;
                assert forall|k: int| 0 <= k < j implies (#[trigger] t[k]).num * t[j as int].den
                    < t[j as int].num * t[k].den by {
                    let a = vars@[k];
                    if found {
                        assert(vars@.take(j as int)[k] == vars@[k]);
                        assert(vars@.take(j as int)[best as int] == vars@[best as int]);
                        lemma_fraction_order(
                            a.num as int,
                            a.den as int,
                            best_num as int,
                            best_den as int,
                            v.num as int,
                            v.den as int,
                        );
                    } else {
                        assert(a.num * v.den < v.num * a.den) by (nonlinear_arith)
                            requires
                                a.num == 0,
                                v.num > 0,
                                a.den > 0,
                        ;
                    }
                }
                assert(is_first_best_variance(t, j as int));
            }
            found = true;
            best = j;
            best_num = v.num;
            best_den = v.den;
        } else {
            proof {
                let t = vars@.take(j + 1);
                if found {
                    assert(vars@.take(j as int)[best as int] == vars@[best as int]);
                    assert forall|k: int| 0 <= k < best implies (#[trigger] t[k]).num * t[best as int].den
                        < t[best as int].num * t[k].den by {
                        assert(vars@.take(j as int)[k] == vars@[k]);
                    }
                    assert forall|k: int| best < k < t.len() implies (#[trigger] t[k]).num * t[best as int].den
                        <= t[best as int].num * t[k].den by {
                        if k < j {
                            assert(vars@.take(j as int)[k] == vars@[k]);
                        }
                    }
                    assert(is_first_best_variance(t, best as int));
                } else {
                    assert(v.num == 0) by (nonlinear_arith)
                        requires
                            !(v.num * 1 > 0 * v.den),
                            v.num >= 0,
                    ;
                }
            }
        }
        j += 1;
    }
    assert(vars@.take(n as int) =~= vars@);
    if found {
        Some(best)
    } else {
        assert forall|m: int| !#[trigger] is_first_best_variance(vars@, m) by {
            if 0 <= m < vars@.len() {
                assert(vars@[m].num == 0);
            }
        }
        None
    }
}

/// At most one split is the best.
pub proof fn lemma_best_split_unique(values: Seq<Ratio>, i: int, j: int)
    requires
        is_best_split(values, i),
        is_best_split(values, j),
    ensures
        i == j,
{
}

/// Whether every observation has a positive denominator.
pub open spec fn all_wf(values: Seq<Ratio>) -> bool {
    forall|k: int| 0 <= k < values.len() ==> (#[trigger] values[k]).wf()
}

/// Taking one observation more adds one to the count of its bin.
pub proof fn lemma_count_in_bin_take(values: Seq<Ratio>, k: int, b: int)
    requires
        0 <= k < values.len(),
    ensures
        count_in_bin(values.take(k + 1), b) == count_in_bin(values.take(k), b) + if spec_bin(
            values[k],
        ) == b {
            1int
        } else {
            0int
        },
{
    assert(values.take(k + 1).drop_last() =~= values.take(k));
}

/// The bin of an observation is one of the `NUM_BINS` bins.
pub proof fn lemma_bin_range(v: Ratio)
    requires
        v.wf(),
    ensures
        0 <= spec_bin(v) < NUM_BINS,
        0 < v.num < v.den ==> spec_bin(v) < NUM_BINS - 1,
{
    if 0 < v.num < v.den {
        let n = v.num as int;
        let d = v.den as int;
        assert(0 <= (n * 999) / d < 999) by (nonlinear_arith)
            requires
                0 < n < d,
        ;
    }
}

/// With one observation more, the count up to a bin grows by one if the
/// observation falls there, and the moment by its bin.
pub proof fn lemma_cumulative_step(values: Seq<Ratio>, i: int)
    requires
        values.len() > 0,
        all_wf(values),
    ensures
        count_le(values, i) == count_le(values.drop_last(), i) + if spec_bin(values.last()) <= i {
            1int
        } else {
            0int
        },
        moment_le(values, i) == moment_le(values.drop_last(), i) + if spec_bin(values.last())
            <= i {
            spec_bin(values.last())
        } else {
            0int
        },
    decreases i + 1,
{
    lemma_bin_range(values.last());
    if i >= 0 {
        lemma_cumulative_step(values, i - 1);
        let c = count_in_bin(values.drop_last(), i);
        assert(i * (c + 1) == i * c + i) by (nonlinear_arith);
    }
}

/// The count up to a bin is at most the number of observations, and the
/// moment at most the bin for each of them.
pub proof fn lemma_cumulative_bounds(values: Seq<Ratio>, i: int)
    requires
        all_wf(values),
        0 <= i,
    ensures
        0 <= count_le(values, i) <= values.len(),
        0 <= moment_le(values, i) <= i * count_le(values, i),
        i >= NUM_BINS - 1 ==> count_le(values, i) == values.len(),
    decreases values.len(),
{
    if values.len() == 0 {
        lemma_cumulative_empty(values, i);
    } else {
        lemma_cumulative_step(values, i);
        lemma_cumulative_bounds(values.drop_last(), i);
        lemma_bin_range(values.last());
        let c = count_le(values.drop_last(), i);
        assert(i * (c + 1) == i * c + i) by (nonlinear_arith);
    }
}

/// Of no observations, no bin holds any.
pub proof fn lemma_cumulative_empty(values: Seq<Ratio>, i: int)
    requires
        values.len() == 0,
    ensures
        count_le(values, i) == 0,
        moment_le(values, i) == 0,
    decreases i + 1,
{
    if i >= 0 {
        lemma_cumulative_empty(values, i - 1);
    }
}

/// Of three fractions with positive denominators, where the first is at most
/// the second and the second below the third, the first is below the third.
pub proof fn lemma_fraction_order(a: int, b: int, c: int, d: int, e: int, f: int)
    requires
        b > 0,
        d > 0,
        f > 0,
        a * d <= c * b,
        c * f < e * d,
    ensures
        a * f < e * b,
{
    assert(a * d * f <= c * b * f) by (nonlinear_arith)
        requires
            a * d <= c * b,
            f > 0,
    ;
    assert(c * f * b < e * d * b) by (nonlinear_arith)
        requires
            c * f < e * d,
            b > 0,
    ;
    assert(a * f < e * b) by (nonlinear_arith)
        requires
            a * d * f <= c * b * f,
            c * f * b < e * d * b,
            d > 0,
    ;
}

/// Whether every observation falls into one of the two bins `lo` and `hi`.
pub open spec fn bins_within(values: Seq<Ratio>, lo: int, hi: int) -> bool {
    forall|k: int|
        0 <= k < values.len() ==> spec_bin(#[trigger] values[k]) == lo || spec_bin(values[k]) == hi
}

/// Where every observation falls into one of two bins, the two bins hold all
/// observations and every other bin none.
pub proof fn lemma_two_bins_counts(values: Seq<Ratio>, lo: int, hi: int, b: int)
    requires
        bins_within(values, lo, hi),
        lo != hi,
    ensures
        count_in_bin(values, lo) + count_in_bin(values, hi) == values.len(),
        0 <= count_in_bin(values, lo),
        0 <= count_in_bin(values, hi),
        b != lo && b != hi ==> count_in_bin(values, b) == 0,
        (exists|k: int| 0 <= k < values.len() && spec_bin(#[trigger] values[k]) == lo)
            ==> count_in_bin(values, lo) > 0,
        (exists|k: int| 0 <= k < values.len() && spec_bin(#[trigger] values[k]) == hi)
            ==> count_in_bin(values, hi) > 0,
    decreases values.len(),
{
    if values.len() > 0 {
        let rest = values.drop_last();
        assert forall|k: int| 0 <= k < rest.len() implies spec_bin(#[trigger] rest[k]) == lo
            || spec_bin(rest[k]) == hi by {
            assert(rest[k] == values[k]);
        }
        lemma_two_bins_counts(rest, lo, hi, b);
        assert(spec_bin(values[values.len() - 1]) == lo || spec_bin(values[values.len() - 1]) == hi);
        if exists|k: int| 0 <= k < values.len() && spec_bin(#[trigger] values[k]) == lo {
            let k = choose|k: int| 0 <= k < values.len() && spec_bin(#[trigger] values[k]) == lo;
            if k < rest.len() {
                assert(rest[k] == values[k]);
            }
        }
        if exists|k: int| 0 <= k < values.len() && spec_bin(#[trigger] values[k]) == hi {
            let k = choose|k: int| 0 <= k < values.len() && spec_bin(#[trigger] values[k]) == hi;
            if k < rest.len() {
                assert(rest[k] == values[k]);
            }
        }
    }
}

/// Where every observation falls into one of the bins `lo` and `hi`, `lo`
/// the lower, the count and the moment up to a bin are those of nothing
/// below `lo`, those of bin `lo` from there to below `hi`, and those of both
/// from `hi` on.
pub proof fn lemma_two_bins_cumulative(values: Seq<Ratio>, lo: int, hi: int, i: int)
    requires
        bins_within(values, lo, hi),
        0 <= lo < hi,
        -1 <= i,
    ensures
        i < lo ==> count_le(values, i) == 0 && moment_le(values, i) == 0,
        lo <= i < hi ==> count_le(values, i) == count_in_bin(values, lo) && moment_le(values, i)
            == lo * count_in_bin(values, lo),
        hi <= i ==> count_le(values, i) == values.len() && moment_le(values, i) == lo
            * count_in_bin(values, lo) + hi * count_in_bin(values, hi),
    decreases i + 1,
{
    if i >= 0 {
        lemma_two_bins_cumulative(values, lo, hi, i - 1);
        lemma_two_bins_counts(values, lo, hi, i);
        if i != lo && i != hi {
            assert(i * count_in_bin(values, i) == 0) by (nonlinear_arith)
                requires
                    count_in_bin(values, i) == 0,
            ;
        }
    }
}

/// Where all observations are the same, no split separates them: the
/// variance is zero and the threshold is the observation itself, limited to
/// the range from 0 to 1.
pub proof fn lemma_otsu_of_identical(values: Seq<Ratio>, v: Ratio)
    requires
        values.len() > 0,
        v.wf(),
        forall|k: int| 0 <= k < values.len() ==> #[trigger] values[k] == v,
    ensures
        no_split(values),
        spec_otsu_threshold(values) == spec_clamp(v),
        0 <= v.num <= v.den ==> spec_otsu_threshold(values).same_value(&v),
{
    lemma_bin_range(v);
    let b = spec_bin(v);
    assert(bins_within(values, b, b + 1));
    assert forall|i: int| 0 <= i < NUM_BINS - 1 implies !#[trigger] split_counts(values, i) by {
        lemma_two_bins_cumulative(values, b, b + 1, i);
        lemma_two_bins_counts(values, b, b + 1, b);
        lemma_bin_absent(values, b + 1);
    }
    lemma_uniform(values, spec_clamp(v));
    let t = spec_otsu_threshold(values);
    assert(t == spec_clamp(v));
    if 0 <= v.num <= v.den {
        if v.num == 0 {
            assert(t.num * v.den == v.num * t.den) by (nonlinear_arith)
                requires
                    t.num == 0,
                    v.num == 0,
            ;
        } else if v.num == v.den {
            assert(t.num == 1 && t.den == 1);
        } else {
            assert(t == v);
        }
    }
}

/// A bin into which no observation falls holds none.
pub proof fn lemma_bin_absent(values: Seq<Ratio>, b: int)
    requires
        forall|k: int| 0 <= k < values.len() ==> spec_bin(#[trigger] values[k]) != b,
    ensures
        count_in_bin(values, b) == 0,
    decreases values.len(),
{
    if values.len() > 0 {
        let rest = values.drop_last();
        assert forall|k: int| 0 <= k < rest.len() implies spec_bin(#[trigger] rest[k]) != b by {
            assert(rest[k] == values[k]);
        }
        lemma_bin_absent(rest, b);
        assert(spec_bin(values[values.len() - 1]) != b);
    }
}

/// An observation outside the range from 0 to 1 is sorted into the bin of
/// the nearer end of the range: it is limited, not refused.
pub proof fn lemma_bin_of_clamped(v: Ratio)
    requires
        v.wf(),
    ensures
        spec_bin(v) == spec_bin(spec_clamp(v)),
        v.num <= 0 ==> spec_bin(v) == 0,
        v.num >= v.den ==> spec_bin(v) == NUM_BINS - 1,
{
}

/// Where the observations form two clusters, each of one value, with at
/// least one bin between them, the split falls after the bin of the lower
/// cluster, and the threshold lies strictly between the two values.
pub proof fn lemma_otsu_separates_two_clusters(values: Seq<Ratio>, lo: Ratio, hi: Ratio)
    requires
        lo.wf(),
        hi.wf(),
        forall|k: int| 0 <= k < values.len() ==> #[trigger] values[k] == lo || values[k] == hi,
        exists|k: int| 0 <= k < values.len() && #[trigger] values[k] == lo,
        exists|k: int| 0 <= k < values.len() && #[trigger] values[k] == hi,
        spec_bin(lo) + 1 < spec_bin(hi),
    ensures
        is_best_split(values, spec_bin(lo)),
        spec_otsu_threshold(values) == (Ratio { num: (spec_bin(lo) + 1) as i64, den: 999 }),
        lo.spec_lt(&spec_otsu_threshold(values)),
        spec_otsu_threshold(values).spec_lt(&hi),
{
    let a = spec_bin(lo);
    let b = spec_bin(hi);
    lemma_bin_range(lo);
    lemma_bin_range(hi);
    assert(bins_within(values, a, b));
    let klo = choose|k: int| 0 <= k < values.len() && #[trigger] values[k] == lo;
    let khi = choose|k: int| 0 <= k < values.len() && #[trigger] values[k] == hi;
    assert(spec_bin(values[klo]) == a);
    assert(spec_bin(values[khi]) == b);
    lemma_otsu_of_two_bins(values, a, b);
    if 0 < lo.num < lo.den {
        let x = lo.num as int;
        let y = lo.den as int;
        assert(x * 999 < ((x * 999) / y + 1) * y) by (nonlinear_arith)
            requires
                y > 0,
        ;
    }
    assert(lo.num * 999 < (a + 1) * lo.den) by (nonlinear_arith)
        requires
            lo.den > 0,
            a >= 0,
            lo.num <= 0 || (0 < lo.num < lo.den && lo.num * 999 < (a + 1) * lo.den),
    ;
    if 0 < hi.num < hi.den {
        let x = hi.num as int;
        let y = hi.den as int;
        assert(((x * 999) / y) * y <= x * 999) by (nonlinear_arith)
            requires
                y > 0,
        ;
        assert((a + 1) * y < b * y) by (nonlinear_arith)
            requires
                y > 0,
                a + 1 < b,
        ;
    } else {
        assert((a + 1) * hi.den < hi.num * 999) by (nonlinear_arith)
            requires
                hi.den > 0,
                hi.num >= hi.den,
                0 <= a,
                a + 1 < 999,
        ;
    }
}

/// Where the observations fall into two bins, and some into each, the split
/// falls after the lower of the two bins.
pub proof fn lemma_otsu_of_two_bins(values: Seq<Ratio>, a: int, b: int)
    requires
        bins_within(values, a, b),
        0 <= a < b <= NUM_BINS - 1,
        exists|k: int| 0 <= k < values.len() && spec_bin(#[trigger] values[k]) == a,
        exists|k: int| 0 <= k < values.len() && spec_bin(#[trigger] values[k]) == b,
    ensures
        is_best_split(values, a),
        !no_split(values),
        spec_otsu_threshold(values) == (Ratio { num: (a + 1) as i64, den: 999 }),
{
    lemma_two_bins_counts(values, a, b, a);
    let n = values.len() as int;
    let n_lo = count_in_bin(values, a);
    let n_hi = count_in_bin(values, b);
    lemma_two_bins_cumulative(values, a, b, NUM_BINS - 1);
    let total = moment_le(values, NUM_BINS - 1);
    assert(total == a * n_lo + b * n_hi);
    let d = (a * n_lo) * n - total * n_lo;
    assert(d == n_lo * n_hi * (a - b)) by (nonlinear_arith)
        requires
            d == (a * n_lo) * n - total * n_lo,
            total == a * n_lo + b * n_hi,
            n == n_lo + n_hi,
    ;
    assert(d * d > 0) by (nonlinear_arith)
        requires
            d == n_lo * n_hi * (a - b),
            n_lo > 0,
            n_hi > 0,
            a < b,
    ;
    assert forall|i: int| a <= i < b implies split_num(values, i) == d * d && split_den(values, i)
        == n_lo * n_hi && #[trigger] split_counts(values, i) by {
        lemma_two_bins_cumulative(values, a, b, i);
    }
    assert forall|i: int| 0 <= i < NUM_BINS - 1 && !(a <= i < b) implies !#[trigger] split_counts(
        values,
        i,
    ) by {
        lemma_two_bins_cumulative(values, a, b, i);
    }
    assert(split_counts(values, a));
    assert(is_best_split(values, a));
    let chosen = choose|i: int| is_best_split(values, i);
    lemma_best_split_unique(values, chosen, a);
}

/// The first of the splits after the bins below `n` that has the greatest
/// variance of them, or -1 where none of them separates the observations.
proof fn lemma_best_split_below(values: Seq<Ratio>, n: int) -> (b: int)
    requires
        0 <= n <= NUM_BINS - 1,
    ensures
        -1 <= b < n,
        b == -1 ==> forall|j: int| 0 <= j < n ==> !#[trigger] split_counts(values, j),
        b >= 0 ==> {
            &&& split_counts(values, b)
            &&& forall|j: int|
                0 <= j < b && #[trigger] split_counts(values, j) ==> split_num(values, j)
                    * split_den(values, b) < split_num(values, b) * split_den(values, j)
            &&& forall|j: int|
                b < j < n && #[trigger] split_counts(values, j) ==> split_num(values, j)
                    * split_den(values, b) <= split_num(values, b) * split_den(values, j)
        },
    decreases n,
{
    if n == 0 {
        -1
    } else {
        let prev = lemma_best_split_below(values, n - 1);
        let s = n - 1;
        if !split_counts(values, s) {
            prev
        } else if prev == -1 {
            s
        } else {
            let num = split_num(values, s);
            let den = split_den(values, s);
            let best_num = split_num(values, prev);
            let best_den = split_den(values, prev);
            lemma_split_den_positive(values, s);
            lemma_split_den_positive(values, prev);
            if num * best_den > best_num * den {
                assert forall|j: int| 0 <= j < s && #[trigger] split_counts(values, j) implies split_num(
                    values,
                    j,
                ) * den < num * split_den(values, j) by {
                    lemma_split_den_positive(values, j);
                    if j != prev {
                        lemma_fraction_order(
                            split_num(values, j),
                            split_den(values, j),
                            best_num,
                            best_den,
                            num,
                            den,
                        );
                    }
                }
                s
            } else {
                prev
            }
        }
    }
}

/// A split that leaves observations on both sides has a variance with a
/// positive denominator.
proof fn lemma_split_den_positive(values: Seq<Ratio>, i: int)
    requires
        split_valid(values, i),
    ensures
        split_den(values, i) > 0,
{
    let c = count_le(values, i);
    let n = values.len() as int;
    assert(c * (n - c) > 0) by (nonlinear_arith)
        requires
            0 < c < n,
    ;
}

/// Where some split separates the observations, one split is the best.
pub proof fn lemma_best_split_exists(values: Seq<Ratio>)
    requires
        !no_split(values),
    ensures
        exists|i: int| is_best_split(values, i),
        is_best_split(values, choose|i: int| is_best_split(values, i)),
{
    let b = lemma_best_split_below(values, NUM_BINS - 1);
    assert(is_best_split(values, b));
}

/// Where all observations are `v` once limited to the range from 0 to 1,
/// they are uniform, and `v` is the value that they have.
pub proof fn lemma_uniform(values: Seq<Ratio>, v: Ratio)
    requires
        values.len() > 0,
        all_clamp_to(values, v),
    ensures
        is_uniform(values),
        (choose|w: Ratio| all_clamp_to(values, w)) == v,
{
    let w = choose|w: Ratio| all_clamp_to(values, w);
    assert(spec_clamp(values[0]) == v);
    assert(spec_clamp(values[0]) == w);
}

/// No split separates observations that are all the same once limited to
/// the range from 0 to 1.
pub proof fn lemma_uniform_is_not_split(values: Seq<Ratio>, v: Ratio)
    requires
        all_wf(values),
        all_clamp_to(values, v),
    ensures
        no_split(values),
{
    if values.len() == 0 {
        assert forall|i: int| 0 <= i < NUM_BINS - 1 implies !#[trigger] split_counts(values, i) by {
            lemma_cumulative_bounds(values, i);
        }
    } else {
        lemma_bin_of_clamped(values[0]);
        lemma_bin_range(values[0]);
        let b = spec_bin(values[0]);
        assert forall|k: int| 0 <= k < values.len() implies spec_bin(#[trigger] values[k]) == b
            || spec_bin(values[k]) == b + 1 by {
            lemma_bin_of_clamped(values[k]);
            assert(spec_clamp(values[k]) == v);
            assert(spec_clamp(values[0]) == v);
        }
        assert(bins_within(values, b, b + 1));
        assert forall|i: int| 0 <= i < NUM_BINS - 1 implies !#[trigger] split_counts(values, i) by {
            lemma_two_bins_cumulative(values, b, b + 1, i);
            lemma_two_bins_counts(values, b, b + 1, b);
            lemma_bin_absent(values, b + 1);
        }
    }
}

/// The split of the observations depends on how many of them fall into
/// each bin: observations that fill every bin alike have the same best
/// split, the same variance and, where a split separates them, the same
/// threshold.
pub proof fn lemma_otsu_depends_on_counts(a: Seq<Ratio>, b: Seq<Ratio>)
    requires
        a.len() == b.len(),
        forall|bin: int| count_in_bin(a, bin) == #[trigger] count_in_bin(b, bin),
    ensures
        no_split(a) == no_split(b),
        spec_otsu_variance(a) == spec_otsu_variance(b),
        !no_split(a) ==> spec_otsu_threshold(a) == spec_otsu_threshold(b),
{
    assert forall|i: int| -1 <= i < NUM_BINS implies count_le(a, i) == count_le(b, i) && moment_le(
        a,
        i,
    ) == #[trigger] moment_le(b, i) by {
        lemma_same_counts_cumulative(a, b, i);
    }
    assert forall|i: int| 0 <= i < NUM_BINS - 1 implies split_counts(a, i) == #[trigger] split_counts(
        b,
        i,
    ) && split_num(a, i) == split_num(b, i) && split_den(a, i) == split_den(b, i) by {
        assert(moment_le(a, i) == moment_le(b, i));
        assert(moment_le(a, NUM_BINS - 1) == moment_le(b, NUM_BINS - 1));
    }
    if no_split(a) {
        assert forall|i: int| 0 <= i < NUM_BINS - 1 implies !#[trigger] split_counts(b, i) by {
            assert(!split_counts(a, i));
        }
    }
    if no_split(b) {
        assert forall|i: int| 0 <= i < NUM_BINS - 1 implies !#[trigger] split_counts(a, i) by {
            assert(!split_counts(b, i));
        }
    }
    if !no_split(a) {
        lemma_best_split_exists(a);
        lemma_best_split_exists(b);
        let ia = choose|i: int| is_best_split(a, i);
        let ib = choose|i: int| is_best_split(b, i);
        assert(is_best_split(b, ia)) by {
            assert(split_counts(b, ia));
            assert forall|j: int| 0 <= j < ia && #[trigger] split_counts(b, j) implies split_num(b, j)
                * split_den(b, ia) < split_num(b, ia) * split_den(b, j) by {
                assert(split_counts(a, j));
            }
            assert forall|j: int|
                ia < j < NUM_BINS - 1 && #[trigger] split_counts(b, j) implies split_num(b, j)
                * split_den(b, ia) <= split_num(b, ia) * split_den(b, j) by {
                assert(split_counts(a, j));
            }
        }
        lemma_best_split_unique(b, ia, ib);
    }
}

/// Observations that fill every bin alike have the same counts and moments
/// up to every bin.
proof fn lemma_same_counts_cumulative(a: Seq<Ratio>, b: Seq<Ratio>, i: int)
    requires
        forall|bin: int| count_in_bin(a, bin) == #[trigger] count_in_bin(b, bin),
        -1 <= i,
    ensures
        count_le(a, i) == count_le(b, i),
        moment_le(a, i) == moment_le(b, i),
    decreases i + 1,
{
    if i >= 0 {
        lemma_same_counts_cumulative(a, b, i - 1);
        assert(count_in_bin(a, i) == count_in_bin(b, i));
    }
}

/// Observations that fall into the same bins, one by one, fill every bin
/// alike.
proof fn lemma_same_bins_counts(a: Seq<Ratio>, b: Seq<Ratio>, bin: int)
    requires
        a.len() == b.len(),
        forall|k: int| 0 <= k < a.len() ==> spec_bin(#[trigger] a[k]) == spec_bin(b[k]),
    ensures
        count_in_bin(a, bin) == count_in_bin(b, bin),
    decreases a.len(),
{
    if a.len() > 0 {
        let ra = a.drop_last();
        let rb = b.drop_last();
        assert forall|k: int| 0 <= k < ra.len() implies spec_bin(#[trigger] ra[k]) == spec_bin(
            rb[k],
        ) by {
            assert(ra[k] == a[k]);
            assert(spec_bin(a[k]) == spec_bin(b[k]));
        }
        lemma_same_bins_counts(ra, rb, bin);
        assert(spec_bin(a[a.len() - 1]) == spec_bin(b[a.len() - 1]));
    }
}

/// The split of the observations depends on their bins alone: observations
/// that fall into the same bins, one by one, have the same best split, the
/// same variance and, where a split separates them, the same threshold.
pub proof fn lemma_otsu_depends_on_bins(a: Seq<Ratio>, b: Seq<Ratio>)
    requires
        a.len() == b.len(),
        forall|k: int| 0 <= k < a.len() ==> spec_bin(#[trigger] a[k]) == spec_bin(b[k]),
    ensures
        no_split(a) == no_split(b),
        spec_otsu_variance(a) == spec_otsu_variance(b),
        !no_split(a) ==> spec_otsu_threshold(a) == spec_otsu_threshold(b),
{
    assert forall|bin: int| count_in_bin(a, bin) == #[trigger] count_in_bin(b, bin) by {
        lemma_same_bins_counts(a, b, bin);
    }
    lemma_otsu_depends_on_counts(a, b);
}

/// Observations outside the range from 0 to 1 count as the nearer end of
/// the range: where each observation of one sequence is, once limited to
/// the range, that of another, they are split alike. So observations are
/// split as they are once limited to the range.
pub proof fn lemma_otsu_clamps(a: Seq<Ratio>, b: Seq<Ratio>)
    requires
        all_wf(a),
        all_wf(b),
        a.len() == b.len(),
        forall|k: int| 0 <= k < a.len() ==> spec_clamp(#[trigger] a[k]) == spec_clamp(b[k]),
    ensures
        spec_otsu_threshold(a) == spec_otsu_threshold(b),
        spec_otsu_variance(a) == spec_otsu_variance(b),
{
    assert forall|k: int| 0 <= k < a.len() implies spec_bin(#[trigger] a[k]) == spec_bin(b[k]) by {
        lemma_bin_of_clamped(a[k]);
        lemma_bin_of_clamped(b[k]);
        assert(spec_clamp(a[k]) == spec_clamp(b[k]));
    }
    lemma_otsu_depends_on_bins(a, b);
    assert forall|v: Ratio| all_clamp_to(a, v) == #[trigger] all_clamp_to(b, v) by {
        if all_clamp_to(a, v) {
            assert forall|k: int| 0 <= k < b.len() implies spec_clamp(#[trigger] b[k]) == v by {
                assert(spec_clamp(a[k]) == v);
            }
        }
        if all_clamp_to(b, v) {
            assert forall|k: int| 0 <= k < a.len() implies spec_clamp(#[trigger] a[k]) == v by {
                assert(spec_clamp(b[k]) == v);
            }
        }
    }
    lemma_same_uniform_value(a, b);
}

/// Two sequences of observations of which the one is all `v`, once limited
/// to the range, exactly if the other is, are uniform together and then of
/// one value.
proof fn lemma_same_uniform_value(a: Seq<Ratio>, b: Seq<Ratio>)
    requires
        a.len() == b.len(),
        forall|v: Ratio| all_clamp_to(a, v) == #[trigger] all_clamp_to(b, v),
    ensures
        is_uniform(a) == is_uniform(b),
        a.len() > 0 && is_uniform(a) ==> (choose|v: Ratio| all_clamp_to(a, v)) == (choose|v: Ratio|
            all_clamp_to(b, v)),
{
    if is_uniform(a) {
        let v = choose|v: Ratio| all_clamp_to(a, v);
        assert(all_clamp_to(b, v));
        if a.len() > 0 {
            lemma_uniform(b, v);
        }
    }
    if is_uniform(b) {
        let v = choose|v: Ratio| all_clamp_to(b, v);
        assert(all_clamp_to(a, v));
    }
}

/// Taking an observation out takes one out of its bin.
pub proof fn lemma_count_in_bin_remove(values: Seq<Ratio>, i: int, bin: int)
    requires
        0 <= i < values.len(),
    ensures
        count_in_bin(values, bin) == count_in_bin(values.remove(i), bin) + if spec_bin(values[i])
            == bin {
            1int
        } else {
            0int
        },
    decreases values.len(),
{
    if i == values.len() - 1 {
        assert(values.remove(i) =~= values.drop_last());
    } else {
        lemma_count_in_bin_remove(values.drop_last(), i, bin);
        assert(values.drop_last().remove(i) =~= values.remove(i).drop_last());
        assert(values.remove(i).last() == values.last());
    }
}

/// Observations in another order fill every bin alike.
pub proof fn lemma_count_in_bin_permuted(a: Seq<Ratio>, b: Seq<Ratio>, bin: int)
    requires
        a.to_multiset() == b.to_multiset(),
    ensures
        count_in_bin(a, bin) == count_in_bin(b, bin),
        a.len() == b.len(),
    decreases a.len(),
{
    a.to_multiset_ensures();
    b.to_multiset_ensures();
    if a.len() > 0 {
        let rest = a.drop_last();
        let last = a.last();
        rest.to_multiset_ensures();
        assert(a =~= rest.push(last));
        assert(a.to_multiset() =~= rest.to_multiset().insert(last));
        assert(b.to_multiset().count(last) > 0);
        assert(b.contains(last));
        let i = choose|i: int| 0 <= i < b.len() && b[i] == last;
        let others = b.remove(i);
        assert(others.to_multiset() =~= b.to_multiset().remove(last));
        assert(others.to_multiset() =~= rest.to_multiset());
        lemma_count_in_bin_permuted(rest, others, bin);
        lemma_count_in_bin_remove(b, i, bin);
    }
}

/// The split of the observations does not depend on their order: the same
/// observations in another order have the same threshold and the same
/// variance.
pub proof fn lemma_otsu_of_permutation(a: Seq<Ratio>, b: Seq<Ratio>)
    requires
        a.to_multiset() == b.to_multiset(),
    ensures
        spec_otsu_threshold(a) == spec_otsu_threshold(b),
        spec_otsu_variance(a) == spec_otsu_variance(b),
{
    assert forall|bin: int| count_in_bin(a, bin) == #[trigger] count_in_bin(b, bin) by {
        lemma_count_in_bin_permuted(a, b, bin);
    }
    lemma_count_in_bin_permuted(a, b, 0);
    lemma_otsu_depends_on_counts(a, b);
    a.to_multiset_ensures();
    b.to_multiset_ensures();
    assert forall|v: Ratio| all_clamp_to(a, v) == #[trigger] all_clamp_to(b, v) by {
        if all_clamp_to(a, v) {
            assert forall|k: int| 0 <= k < b.len() implies spec_clamp(#[trigger] b[k]) == v by {
                assert(b.contains(b[k]));
                assert(a.to_multiset().count(b[k]) > 0);
                assert(a.contains(b[k]));
                let j = choose|j: int| 0 <= j < a.len() && a[j] == b[k];
                assert(spec_clamp(a[j]) == v);
            }
        }
        if all_clamp_to(b, v) {
            assert forall|k: int| 0 <= k < a.len() implies spec_clamp(#[trigger] a[k]) == v by {
                assert(a.contains(a[k]));
                assert(b.to_multiset().count(a[k]) > 0);
                assert(b.contains(a[k]));
                let j = choose|j: int| 0 <= j < b.len() && b[j] == a[k];
                assert(spec_clamp(b[j]) == v);
            }
        }
    }
    lemma_same_uniform_value(a, b);
}

/// A bin into which an observation falls holds at least one, and no bin
/// holds less than none.
pub proof fn lemma_bin_present(values: Seq<Ratio>, b: int)
    ensures
        count_in_bin(values, b) >= 0,
        (exists|k: int| 0 <= k < values.len() && spec_bin(#[trigger] values[k]) == b)
            ==> count_in_bin(values, b) >= 1,
    decreases values.len(),
{
    if values.len() > 0 {
        let rest = values.drop_last();
        lemma_bin_present(rest, b);
        if exists|k: int| 0 <= k < values.len() && spec_bin(#[trigger] values[k]) == b {
            let k = choose|k: int| 0 <= k < values.len() && spec_bin(#[trigger] values[k]) == b;
            if k < rest.len() {
                assert(rest[k] == values[k]);
            }
        }
    }
}

/// The count up to a bin does not fall from bin to bin.
pub proof fn lemma_count_le_monotone(values: Seq<Ratio>, i: int, j: int)
    requires
        -1 <= i <= j,
    ensures
        count_le(values, i) <= count_le(values, j),
    decreases j - i,
{
    if i < j {
        lemma_count_le_monotone(values, i, j - 1);
        lemma_bin_present(values, j);
    }
}

/// Where observations fall into the first bin and into the last, the split
/// after the first bin separates them.
pub proof fn lemma_ends_split(values: Seq<Ratio>)
    requires
        all_wf(values),
        exists|k: int| 0 <= k < values.len() && spec_bin(#[trigger] values[k]) == 0,
        exists|k: int| 0 <= k < values.len() && spec_bin(#[trigger] values[k]) == NUM_BINS - 1,
    ensures
        split_counts(values, 0),
        !no_split(values),
{
    let last = NUM_BINS - 1;
    lemma_bin_present(values, 0);
    lemma_bin_present(values, last);
    lemma_cumulative_bounds(values, last);
    lemma_cumulative_bounds(values, last - 1);
    lemma_count_le_monotone(values, 0, last - 1);
    let n = values.len() as int;
    let c0 = count_le(values, 0);
    let total = moment_le(values, last);
    assert(count_le(values, -1) == 0);
    assert(c0 == count_in_bin(values, 0));
    assert(moment_le(values, -1) == 0);
    assert(moment_le(values, 0) == 0);
    assert(total >= 999) by (nonlinear_arith)
        requires
            total == moment_le(values, 998) + 999 * count_in_bin(values, 999),
            moment_le(values, 998) >= 0,
            count_in_bin(values, 999) >= 1,
    ;
    let d = moment_le(values, 0) * n - total * c0;
    assert(d * d > 0) by (nonlinear_arith)
        requires
            d == 0 * n - total * c0,
            total >= 999,
            c0 >= 1,
    ;
    assert(split_counts(values, 0));
}

/// The least of the observations.
pub open spec fn spec_least(values: Seq<i32>) -> int
    decreases values.len(),
{
    if values.len() <= 1 {
        values[0] as int
    } else if values.last() < spec_least(values.drop_last()) {
        values.last() as int
    } else {
        spec_least(values.drop_last())
    }
}

/// The greatest of the observations.
pub open spec fn spec_greatest(values: Seq<i32>) -> int
    decreases values.len(),
{
    if values.len() <= 1 {
        values[0] as int
    } else if values.last() > spec_greatest(values.drop_last()) {
        values.last() as int
    } else {
        spec_greatest(values.drop_last())
    }
}

/// The observations as fractions of their range: the least becomes 0, the
/// greatest 1.
pub open spec fn normalized(values: Seq<i32>) -> Seq<Ratio> {
    Seq::new(
        values.len(),
        |k: int|
            Ratio {
                num: (values[k] - spec_least(values)) as i64,
                den: (spec_greatest(values) - spec_least(values)) as i64,
            },
    )
}

/// The threshold that splits observations of any range: that of the
/// observations as fractions of their range, brought back to the range.
/// Where all observations are the same it is that observation, and zero
/// where there is none.
pub open spec fn spec_otsu_ranged_threshold(values: Seq<i32>) -> Ratio {
    if values.len() == 0 {
        Ratio { num: 0, den: 1 }
    } else if spec_least(values) == spec_greatest(values) {
        Ratio { num: spec_least(values) as i64, den: 1 }
    } else {
        let t = spec_otsu_threshold(normalized(values));
        Ratio {
            num: (spec_least(values) * t.den + t.num * (spec_greatest(values) - spec_least(values))) as i64,
            den: t.den,
        }
    }
}

/// The inter-class variance that belongs to the threshold of observations
/// of any range, in squared bins.
pub open spec fn spec_otsu_ranged_variance(values: Seq<i32>) -> Variance {
    if values.len() == 0 || spec_least(values) == spec_greatest(values) {
        Variance { num: 0, den: 1 }
    } else {
        spec_otsu_variance(normalized(values))
    }
}

/// The least and the greatest observation bound all, and are among them.
pub proof fn lemma_least_greatest(values: Seq<i32>)
    requires
        values.len() > 0,
    ensures
        forall|k: int|
            0 <= k < values.len() ==> spec_least(values) <= #[trigger] values[k] <= spec_greatest(
                values,
            ),
        exists|k: int| 0 <= k < values.len() && #[trigger] values[k] == spec_least(values),
        exists|k: int| 0 <= k < values.len() && #[trigger] values[k] == spec_greatest(values),
    decreases values.len(),
{
    if values.len() > 1 {
        let rest = values.drop_last();
        lemma_least_greatest(rest);
        let kl = choose|k: int| 0 <= k < rest.len() && #[trigger] rest[k] == spec_least(rest);
        let kg = choose|k: int| 0 <= k < rest.len() && #[trigger] rest[k] == spec_greatest(rest);
        assert(values[kl] == rest[kl]);
        assert(values[kg] == rest[kg]);
        assert(values[values.len() - 1] == values.last());
        assert forall|k: int| 0 <= k < values.len() implies spec_least(values) <= #[trigger] values[k]
            <= spec_greatest(values) by {
            if k < rest.len() {
                assert(rest[k] == values[k]);
            }
        }
    } else {
        assert(values[0] == spec_least(values));
    }
}

/// The threshold of observations of more than one value lies above the
/// least of them and not above the greatest.
pub proof fn lemma_otsu_ranged_within(values: Seq<i32>)
    requires
        values.len() > 0,
        spec_least(values) < spec_greatest(values),
    ensures
        !no_split(normalized(values)),
        spec_otsu_ranged_threshold(values).den == NUM_BINS - 1,
        spec_least(values) * (NUM_BINS - 1) < spec_otsu_ranged_threshold(values).num
            <= spec_greatest(values) * (NUM_BINS - 1),
{
    let norm = normalized(values);
    lemma_least_greatest(values);
    let kl = choose|k: int| 0 <= k < values.len() && #[trigger] values[k] == spec_least(values);
    let kg = choose|k: int| 0 <= k < values.len() && #[trigger] values[k] == spec_greatest(values);
    assert(spec_bin(norm[kl]) == 0);
    assert(spec_bin(norm[kg]) == NUM_BINS - 1);
    assert forall|k: int| 0 <= k < norm.len() implies (#[trigger] norm[k]).wf() by {}
    lemma_ends_split(norm);
    lemma_best_split_exists(norm);
    let i = choose|i: int| is_best_split(norm, i);
    let range = spec_greatest(values) - spec_least(values);
    assert(0 < (i + 1) * range <= 999 * range) by (nonlinear_arith)
        requires
            0 <= i < 999,
            range > 0,
    ;
    assert(999 * range <= 999 * 0xFFFF_FFFF) by (nonlinear_arith)
        requires
            range <= 0xFFFF_FFFF,
    ;
}

/// The split of observations of any range into two classes that maximises
/// the inter-class variance, and that variance.
///
/// The observations are taken as fractions of their range, from the least
/// to the greatest, and split as such; the threshold is brought back to the
/// range.
pub fn otsu_threshold_ranged(values: &Vec<i32>) -> (r: (Ratio, Variance))
    requires
        values@.len() <= MAX_SAMPLES || spec_least(values@) == spec_greatest(values@),
    ensures
        r.0 == spec_otsu_ranged_threshold(values@),
        r.1 == spec_otsu_ranged_variance(values@),
        r.0.wf(),
{
    let n: usize = values.len();
    if n == 0 {
        return (Ratio { num: 0, den: 1 }, Variance { num: 0, den: 1 });
    }
    let mut least: i32 = values[0];
    let mut greatest: i32 = values[0];
    let mut i: usize = 1;
    assert(values@.take(1).len() == 1);
    while i < n
        invariant
            1 <= i <= n,
            n == values@.len(),
            least == spec_least(values@.take(i as int)),
            greatest == spec_greatest(values@.take(i as int)),
        decreases n - i,
    {
        let v: i32 = values[i];
        proof {
            assert(values@.take(i + 1).drop_last() =~= values@.take(i as int));
            assert(values@.take(i + 1).last() == v);
        }
        if v < least {
            least = v;
        }
        if v > greatest {
            greatest = v;
        }
        i += 1;
    }
    assert(values@.take(n as int) =~= values@);
    proof {
        lemma_least_greatest(values@);
    }
    if least == greatest {
        return (Ratio { num: least as i64, den: 1 }, Variance { num: 0, den: 1 });
    }
    let range: i64 = greatest as i64 - least as i64;
    let mut fractions: Vec<Ratio> = Vec::new();
    let mut k: usize = 0;
    while k < n
        invariant
            k <= n,
            n == values@.len(),
            least == spec_least(values@),
            greatest == spec_greatest(values@),
            range == greatest - least,
            range > 0,
            forall|c: int| 0 <= c < n ==> least <= #[trigger] values@[c] <= greatest,
            fractions@.len() == k,
            forall|c: int| 0 <= c < k ==> #[trigger] fractions@[c] == normalized(values@)[c],
        decreases n - k,
    {
        let v: i32 = values[k];
        fractions.push(Ratio { num: v as i64 - least as i64, den: range });
        k += 1;
    }
    assert(fractions@ =~= normalized(values@));
    proof {
        lemma_otsu_ranged_within(values@);
    }
    let (t, variance) = otsu_threshold(&fractions);
    proof {
        assert(t.den == 999);
        assert(0 <= t.num * range <= 999 * 0xFFFF_FFFF) by (nonlinear_arith)
            requires
                0 <= t.num <= 999,
                0 < range <= 0xFFFF_FFFF,
        ;
    }
    let num: i64 = (least as i64) * 999 + t.num * range;
    (Ratio { num, den: 999 }, variance)
}

/// The bin of an observation.
pub fn bin_index(v: &Ratio) -> (b: usize)
    requires
        v.wf(),
    ensures
        b == spec_bin(*v),
        b < NUM_BINS,
{
    proof {
        lemma_bin_range(*v);
    }
    if v.num <= 0 {
        0
    } else if v.num >= v.den {
        NUM_BINS - 1
    } else {
        let scaled: i128 = (v.num as i128) * 999;
        (scaled / (v.den as i128)) as usize
    }
}

/// An observation limited to the range from 0 to 1.
pub fn clamp(v: &Ratio) -> (r: Ratio)
    ensures
        r == spec_clamp(*v),
{
    if v.num <= 0 {
        Ratio { num: 0, den: 1 }
    } else if v.num >= v.den {
        Ratio { num: 1, den: 1 }
    } else {
        *v
    }
}

/// The split of the observations into two classes that maximises the
/// inter-class variance, and that variance.
///
/// The observations are limited to the range from 0 to 1 and sorted into
/// `NUM_BINS` bins. Of the splits after a bin, the first with the greatest
/// variance is taken; the threshold is the upper boundary of that bin, so
/// that the lower class lies below it. Where no split separates the
/// observations the variance is zero, and the threshold is the one value
/// that all of them have once limited to the range, or zero if they differ
/// or if there is none.
///
/// Variances are compared exactly, which limits the number of observations
/// that differ to `MAX_SAMPLES`.
pub fn otsu_threshold(values: &Vec<Ratio>) -> (r: (Ratio, Variance))
    requires
        all_wf(values@),
        values@.len() <= MAX_SAMPLES || is_uniform(values@),
    ensures
        r.0 == spec_otsu_threshold(values@),
        r.1 == spec_otsu_variance(values@),
        0 <= r.0.num <= r.0.den,
        r.1.num <= MAX_VARIANCE_NUM,
        0 < r.1.den <= MAX_VARIANCE_DEN,
        values@.len() == 0 ==> r.0 == (Ratio { num: 0, den: 1 }),
        no_split(values@) && !is_uniform(values@) ==> r.0 == (Ratio { num: 0, den: 1 }),
        values@.len() > 0 && no_split(values@) ==> forall|v: Ratio| #[trigger]
            all_clamp_to(values@, v) ==> r.0 == v,
        no_split(values@) ==> r.1 == (Variance { num: 0, den: 1 }),
        !no_split(values@) ==> {
            &&& r.0.den == NUM_BINS - 1
            &&& is_best_split(values@, r.0.num - 1)
            &&& r.1.num == split_num(values@, r.0.num - 1)
            &&& r.1.den == split_den(values@, r.0.num - 1)
        },
{
    let total: usize = values.len();
    if total == 0 {
        assert forall|i: int| 0 <= i < NUM_BINS - 1 implies !#[trigger] split_counts(values@, i) by {
            lemma_cumulative_bounds(values@, i);
        }
        return (Ratio { num: 0, den: 1 }, Variance { num: 0, den: 1 });
    }
    if all_clamp_alike(values) {
        let common: Ratio = clamp(&values[0]);
        proof {
            lemma_uniform(values@, common);
            lemma_uniform_is_not_split(values@, common);
        }
        return (common, Variance { num: 0, den: 1 });
    }
    let mut histogram: Vec<u64> = Vec::new();
    let mut b: usize = 0;
    while b < NUM_BINS
        invariant
            b <= NUM_BINS,
            histogram@.len() == b,
            forall|k: int| 0 <= k < b ==> histogram@[k] == 0,
        decreases NUM_BINS - b,
    {
        histogram.push(0);
        b += 1;
    }
    let mut k: usize = 0;
    while k < total
        invariant
            k <= total,
            total == values@.len(),
            total <= MAX_SAMPLES,
            all_wf(values@),
            histogram@.len() == NUM_BINS,
            forall|c: int|
                0 <= c < NUM_BINS ==> 0 <= #[trigger] histogram@[c] <= k && histogram@[c]
                    == count_in_bin(values@.take(k as int), c),
        decreases total - k,
    {
        let bin: usize = bin_index(&values[k]);
        proof {
            assert forall|c: int| 0 <= c < NUM_BINS implies count_in_bin(
                values@.take(k + 1),
                c,
            ) == count_in_bin(values@.take(k as int), c) + if spec_bin(values@[k as int]) == c {
                1int
            } else {
                0int
            } by {
                lemma_count_in_bin_take(values@, k as int, c);
            }
        }
        let old_count: u64 = histogram[bin];
        histogram.set(bin, old_count + 1);
        k += 1;
    }
    assert(values@.take(total as int) =~= values@);
    let mut counts: Vec<u64> = Vec::new();
    let mut moments: Vec<u64> = Vec::new();
    let mut count: u64 = 0;
    let mut moment: u64 = 0;
    let mut i: usize = 0;
    while i < NUM_BINS
        invariant
            i <= NUM_BINS,
            total == values@.len(),
            total <= MAX_SAMPLES,
            all_wf(values@),
            histogram@.len() == NUM_BINS,
            forall|c: int|
                0 <= c < NUM_BINS ==> #[trigger] histogram@[c] == count_in_bin(values@, c),
            counts@.len() == i,
            moments@.len() == i,
            count == count_le(values@, i - 1),
            moment == moment_le(values@, i - 1),
            forall|c: int| 0 <= c < i ==> #[trigger] counts@[c] == count_le(values@, c),
            forall|c: int| 0 <= c < i ==> #[trigger] moments@[c] == moment_le(values@, c),
        decreases NUM_BINS - i,
    {
        let in_bin: u64 = histogram[i];
        proof {
            lemma_cumulative_bounds(values@, i as int);
            let c = count_le(values@, i as int);
            assert(i * c <= 999 * 100_000) by (nonlinear_arith)
                requires
                    0 <= i <= 999,
                    0 <= c <= 100_000,
            ;
            let h = count_in_bin(values@, i as int);
            if i > 0 {
                lemma_cumulative_bounds(values@, i - 1);
            }
            assert(0 <= h <= 100_000);
            assert(0 <= i * h <= 999 * 100_000) by (nonlinear_arith)
                requires
                    0 <= i <= 999,
                    0 <= h <= 100_000,
            ;
        }
        count = count + in_bin;
        moment = moment + (i as u64) * in_bin;
        counts.push(count);
        moments.push(moment);
        i += 1;
    }
    let total_moment: u64 = moments[NUM_BINS - 1];
    let mut found: bool = false;
    let mut best_bin: usize = 0;
    let mut best_num: u128 = 0;
    let mut best_den: u128 = 1;
    let mut s: usize = 0;
    while s < NUM_BINS - 1
        invariant
            s <= NUM_BINS - 1,
            total == values@.len(),
            0 < total <= MAX_SAMPLES,
            all_wf(values@),
            counts@.len() == NUM_BINS,
            moments@.len() == NUM_BINS,
            forall|c: int| 0 <= c < NUM_BINS ==> #[trigger] counts@[c] == count_le(values@, c),
            forall|c: int| 0 <= c < NUM_BINS ==> #[trigger] moments@[c] == moment_le(values@, c),
            total_moment == moment_le(values@, NUM_BINS - 1),
            !found ==> forall|j: int| 0 <= j < s ==> !#[trigger] split_counts(values@, j),
            !found ==> best_num == 0 && best_den == 1,
            found ==> {
                &&& best_bin < s
                &&& split_counts(values@, best_bin as int)
                &&& best_num == split_num(values@, best_bin as int)
                &&& best_den == split_den(values@, best_bin as int)
                &&& forall|j: int|
                    0 <= j < best_bin && #[trigger] split_counts(values@, j) ==> split_num(
                        values@,
                        j,
                    ) * split_den(values@, best_bin as int) < split_num(values@, best_bin as int)
                        * split_den(values@, j)
                &&& forall|j: int|
                    best_bin < j < s && #[trigger] split_counts(values@, j) ==> split_num(
                        values@,
                        j,
                    ) * split_den(values@, best_bin as int) <= split_num(
                        values@,
                        best_bin as int,
                    ) * split_den(values@, j)
            },
            best_num <= 1_000_000_000_000_000_000_000_000_000,
            0 < best_den <= 10_000_000_000,
        decreases NUM_BINS - 1 - s,
    {
        let below: u64 = counts[s];
        proof {
            lemma_cumulative_bounds(values@, s as int);
            lemma_cumulative_bounds(values@, NUM_BINS - 1);
        }
        if below != 0 && below != total as u64 {
            let above: u64 = total as u64 - below;
            let m: u64 = moments[s];
            proof {
                let c = count_le(values@, s as int);
                assert(s * c <= 999 * 100_000) by (nonlinear_arith)
                    requires
                        0 <= s <= 999,
                        0 <= c <= 100_000,
                ;
                let ct = count_le(values@, NUM_BINS - 1);
                assert(999 * ct <= 999 * 100_000) by (nonlinear_arith)
                    requires
                        0 <= ct <= 100_000,
                ;
                assert(0 <= m * total <= 99_900_000 * 100_000) by (nonlinear_arith)
                    requires
                        0 <= m <= 99_900_000,
                        0 <= total <= 100_000,
                ;
                assert(0 <= total_moment * below <= 99_900_000 * 100_000) by (nonlinear_arith)
                    requires
                        0 <= total_moment <= 99_900_000,
                        0 <= below <= 100_000,
                ;
                assert(0 < below * above <= 10_000_000_000) by (nonlinear_arith)
                    requires
                        0 < below <= 100_000,
                        0 < above <= 100_000,
                ;
            }
            let d: i128 = (m as i128) * (total as i128) - (total_moment as i128) * (below as i128);
            proof {
                assert(0 <= d * d <= 9_990_000_000_000 * 9_990_000_000_000) by (nonlinear_arith)
                    requires
                        -9_990_000_000_000 <= d <= 9_990_000_000_000,
                ;
            }
            let num: u128 = (d * d) as u128;
            let den: u128 = (below as u128) * (above as u128);
            assert(num == split_num(values@, s as int));
            assert(den == split_den(values@, s as int));
            proof {
                assert(num * best_den <= 1_000_000_000_000_000_000_000_000_000
                    * 10_000_000_000) by (nonlinear_arith)
                    requires
                        0 <= num <= 1_000_000_000_000_000_000_000_000_000,
                        0 <= best_den <= 10_000_000_000,
                ;
                assert(best_num * den <= 1_000_000_000_000_000_000_000_000_000
                    * 10_000_000_000) by (nonlinear_arith)
                    requires
                        0 <= best_num <= 1_000_000_000_000_000_000_000_000_000,
                        0 <= den <= 10_000_000_000,
                ;
            }
            if num * best_den > best_num * den {
                proof {
                    if found {
                        assert forall|j: int| 0 <= j < s && #[trigger] split_counts(values@, j) implies split_num(
                            values@,
                            j,
                        ) * split_den(values@, s as int) < split_num(values@, s as int) * split_den(
                            values@,
                            j,
                        ) by {
                            lemma_cumulative_bounds(values@, j);
                            let cj = count_le(values@, j);
                            assert(split_den(values@, j) > 0) by (nonlinear_arith)
                                requires
                                    split_den(values@, j) == cj * (total - cj),
                                    0 < cj < total,
                            ;
                            if j != best_bin {
                                lemma_fraction_order(
                                    split_num(values@, j),
                                    split_den(values@, j),
                                    best_num as int,
                                    best_den as int,
                                    num as int,
                                    den as int,
                                );
                            }
                        }
                    } else {
                        assert(num > 0) by (nonlinear_arith)
                            requires
                                num * best_den > best_num * den,
                                best_num == 0,
                                best_den == 1,
                        ;
                    }
                    assert(num > 0) by (nonlinear_arith)
                        requires
                            num * best_den > best_num * den,
                            best_num >= 0,
                            den > 0,
                            best_den > 0,
                            num >= 0,
                    ;
                }
                found = true;
                best_bin = s;
                best_num = num;
                best_den = den;
            } else {
                proof {
                    if !found {
                        assert(num == 0) by (nonlinear_arith)
                            requires
                                !(num * best_den > best_num * den),
                                best_num == 0,
                                best_den == 1,
                                num >= 0,
                        ;
                    }
                }
            }
        }
        s += 1;
    }
    if found {
        assert(split_counts(values@, best_bin as int));
        assert(is_best_split(values@, best_bin as int));
        proof {
            let chosen = choose|i: int| is_best_split(values@, i);
            lemma_best_split_unique(values@, chosen, best_bin as int);
        }
        (Ratio { num: best_bin as i64 + 1, den: 999 }, Variance { num: best_num, den: best_den })
    } else {
        (Ratio { num: 0, den: 1 }, Variance { num: 0, den: 1 })
    }
}

/// Whether the observations, of which there is at least one, are all the
/// same once they are limited to the range from 0 to 1.
fn all_clamp_alike(values: &Vec<Ratio>) -> (r: bool)
    requires
        values@.len() > 0,
    ensures
        r == is_uniform(values@),
        r ==> all_clamp_to(values@, spec_clamp(values@[0])),
{
    let first: Ratio = clamp(&values[0]);
    let mut k: usize = 1;
    while k < values.len()
        invariant
            1 <= k <= values@.len(),
            first == spec_clamp(values@[0]),
            forall|c: int| 0 <= c < k ==> spec_clamp(#[trigger] values@[c]) == first,
        decreases values@.len() - k,
    {
        let other: Ratio = clamp(&values[k]);
        if other.num != first.num || other.den != first.den {
            proof {
                if is_uniform(values@) {
                    let v = choose|v: Ratio| all_clamp_to(values@, v);
                    assert(spec_clamp(values@[0]) == v);
                    assert(spec_clamp(values@[k as int]) == v);
                }
            }
            return false;
        }
        k += 1;
    }
    assert(all_clamp_to(values@, first));
    true
}

} // verus!
