//! A histogram of routing times.

use vstd::prelude::*;

verus! {

/// The upper bounds of the buckets, in microseconds.
pub open spec fn bounds() -> Seq<u64> {
    seq![
        5u64,
        10,
        25,
        50,
        100,
        250,
        500,
        1_000,
        2_500,
        5_000,
        10_000,
        25_000,
        50_000,
        100_000,
        250_000,
        500_000,
        1_000_000,
        2_500_000,
        5_000_000,
    ]
}

/// The upper bound of a bucket, in microseconds; the last bucket has none.
pub fn bucket_bound(i: usize) -> (r: Option<u64>)
    ensures
        r == (if i < 19 {
            Some(bounds()[i as int])
        } else {
            None
        }),
{
    match i {
        0 => Some(5),
        1 => Some(10),
        2 => Some(25),
        3 => Some(50),
        4 => Some(100),
        5 => Some(250),
        6 => Some(500),
        7 => Some(1_000),
        8 => Some(2_500),
        9 => Some(5_000),
        10 => Some(10_000),
        11 => Some(25_000),
        12 => Some(50_000),
        13 => Some(100_000),
        14 => Some(250_000),
        15 => Some(500_000),
        16 => Some(1_000_000),
        17 => Some(2_500_000),
        18 => Some(5_000_000),
        _ => None,
    }
}

/// The bucket of a time: the first whose bound is not below it.
pub open spec fn bucket_of(micros: u64, from: nat) -> nat
    decreases 19 - from,
{
    if from >= 19 || micros <= bounds()[from as int] {
        from
    } else {
        bucket_of(micros, from + 1)
    }
}

/// Counts times in buckets of growing bounds. Every count wraps around at 2^64.
#[derive(Debug)]
pub struct LatencyHistogram {
    buckets: [u64; 20],
    count: u64,
    sum_ns: u64,
}

/// The content of a histogram.
#[verifier::ext_equal]
pub struct HistogramView {
    /// How many times are in each of the 20 buckets.
    pub buckets: Seq<u64>,
    /// How many times there are.
    pub count: u64,
    /// Their sum, in nanoseconds.
    pub sum_ns: u64,
}

/// A number that wraps around at 2^64.
pub open spec fn wrapped(v: int) -> u64 {
    (v % 0x1_0000_0000_0000_0000) as u64
}

/// The microseconds of a time, not beyond 2^64 - 1.
pub open spec fn micros_of(nanos: u128) -> u64 {
    if nanos / 1000 > u64::MAX {
        u64::MAX
    } else {
        (nanos / 1000) as u64
    }
}

/// The nanoseconds of a time, not beyond 2^64 - 1.
pub open spec fn nanos_of(nanos: u128) -> u64 {
    if nanos > u64::MAX {
        u64::MAX
    } else {
        nanos as u64
    }
}

impl HistogramView {
    /// The histogram after a time was counted `times` times.
    pub open spec fn recorded(self, nanos: u128, times: u64) -> HistogramView {
        let b = bucket_of(micros_of(nanos), 0) as int;
        HistogramView {
            buckets: self.buckets.update(b, wrapped(self.buckets[b] + times)),
            count: wrapped(self.count + times),
            sum_ns: wrapped(self.sum_ns + nanos_of(nanos) * times),
        }
    }

    /// The number of times in the buckets up to one of them, not beyond 2^64 - 1.
    pub open spec fn cumulative(self, n: nat) -> u64
        decreases n,
    {
        if n == 0 {
            0
        } else {
            let below = self.cumulative((n - 1) as nat);
            if below + self.buckets[n - 1] > u64::MAX {
                u64::MAX
            } else {
                (below + self.buckets[n - 1]) as u64
            }
        }
    }

    /// The first bucket, from one on, up to which there are at least `target` times.
    pub open spec fn reaching(self, target: u64, from: nat) -> nat
        decreases 20 - from,
    {
        if from >= 20 || self.cumulative(from + 1) >= target {
            from
        } else {
            self.reaching(target, from + 1)
        }
    }

    /// The upper bound of the bucket in which a quantile of the times falls.
    pub open spec fn quantile(self, numerator: u64, denominator: u64) -> u64 {
        if self.count == 0 {
            0
        } else {
            let exact = (self.count * numerator + denominator - 1) / (denominator as int);
            let target = if exact < 1 {
                1u64
            } else {
                exact as u64
            };
            let b = self.reaching(target, 0);
            bounds()[if b < 18 {
                b as int
            } else {
                18
            }]
        }
    }

    /// The sum of the buckets.
    pub open spec fn total(self, n: nat) -> int
        decreases n,
    {
        if n == 0 {
            0
        } else {
            self.total((n - 1) as nat) + self.buckets[n - 1]
        }
    }
}

/// A bucket is one of the 20.
proof fn lemma_bucket_range(micros: u64, from: nat)
    requires
        from <= 19,
    ensures
        from <= bucket_of(micros, from) <= 19,
    decreases 19 - from,
{
    if from < 19 && micros > bounds()[from as int] {
        lemma_bucket_range(micros, from + 1);
    }
}

impl View for LatencyHistogram {
    type V = HistogramView;

    closed spec fn view(&self) -> HistogramView {
        HistogramView { buckets: self.buckets@, count: self.count, sum_ns: self.sum_ns }
    }
}

impl LatencyHistogram {
    /// There are 20 buckets.
    pub proof fn lemma_bucket_number(&self)
        ensures
            self@.buckets.len() == 20,
    {
    }

    /// A histogram without times.
    pub fn new() -> (r: Self)
        ensures
            r@ == (HistogramView { buckets: Seq::new(20, |i: int| 0u64), count: 0, sum_ns: 0 }),
    {
        let r = LatencyHistogram { buckets: [0u64; 20], count: 0, sum_ns: 0 };
        assert(r.buckets@ =~= Seq::new(20, |i: int| 0u64));
        r
    }

    /// Counts a time, given in nanoseconds.
    pub fn record(&mut self, nanos: u128)
        ensures
            final(self)@ == old(self)@.recorded(nanos, 1),
    {
        self.record_repeated(nanos, 1);
    }

    /// Counts a time as often as asked.
    pub fn record_repeated(&mut self, nanos: u128, times: u64)
        ensures
            final(self)@ == old(self)@.recorded(nanos, times),
    {
        let micros: u64 = if nanos / 1000 > u64::MAX as u128 {
            u64::MAX
        } else {
            (nanos / 1000) as u64
        };
        let whole: u64 = if nanos > u64::MAX as u128 {
            u64::MAX
        } else {
            nanos as u64
        };
        let mut bucket: usize = 0;
        while bucket < 19
            invariant
                bucket <= 19,
                bucket_of(micros, 0) == bucket_of(micros, bucket as nat),
            ensures
                bucket <= 19,
                bucket_of(micros, 0) == bucket,
            decreases 19 - bucket,
        {
            let bound = bucket_bound(bucket);
            match bound {
                Some(b) => {
                    if micros <= b {
                        break;
                    }
                },
                None => {},
            }
            bucket = bucket + 1;
        }
        let n: u64 = self.buckets[bucket].wrapping_add(times);
        self.buckets[bucket] = n;
        self.count = self.count.wrapping_add(times);
        let product: u64 = whole.wrapping_mul(times);
        self.sum_ns = self.sum_ns.wrapping_add(product);
        proof {
            let m = 0x1_0000_0000_0000_0000int;
            let exact = whole * times;
            assert(product == exact % m);
            vstd::arithmetic::div_mod::lemma_add_mod_noop_right(
                old(self).sum_ns as int,
                exact,
                m,
            );
        }
    }

    /// Counts as many times of zero as asked: messages that went nowhere.
    pub fn record_zero_route_samples(&mut self, times: u64)
        ensures
            final(self)@ == old(self)@.recorded(0, times),
    {
        self.record_repeated(0, times);
    }

    /// How many times there are.
    pub fn count(&self) -> (r: u64)
        ensures
            r == self@.count,
    {
        self.count
    }

    /// The sum of the times, in nanoseconds.
    pub fn sum_nanos(&self) -> (r: u64)
        ensures
            r == self@.sum_ns,
    {
        self.sum_ns
    }

    /// For each bucket its upper bound in microseconds and the number of times up to it.
    pub fn cumulative_buckets(&self) -> (r: Vec<(Option<u64>, u64)>)
        ensures
            r@.len() == 20,
            forall|i: int|
                #![trigger r@[i]]
                0 <= i < 20 ==> r@[i].1 == self@.cumulative((i + 1) as nat) && r@[i].0 == (if i
                    < 19 {
                    Some(bounds()[i])
                } else {
                    None
                }),
    {
        let mut r: Vec<(Option<u64>, u64)> = Vec::new();
        let mut sum: u64 = 0;
        let mut i: usize = 0;
        while i < 20
            invariant
                i <= 20,
                r@.len() == i,
                sum == self@.cumulative(i as nat),
                forall|k: int|
                    #![trigger r@[k]]
                    0 <= k < i ==> r@[k].1 == self@.cumulative((k + 1) as nat) && r@[k].0 == (if k
                        < 19 {
                        Some(bounds()[k])
                    } else {
                        None
                    }),
            decreases 20 - i,
        {
            sum = self.step(sum, i);
            r.push((bucket_bound(i), sum));
            i = i + 1;
        }
        r
    }

    /// Adds the content of a bucket.
    fn step(&self, sum: u64, i: usize) -> (r: u64)
        requires
            i < 20,
            sum == self@.cumulative(i as nat),
        ensures
            r == self@.cumulative((i + 1) as nat),
    {
        let n: u64 = self.buckets[i];
        if n > u64::MAX - sum {
            u64::MAX
        } else {
            sum + n
        }
    }

    /// The upper bound, in microseconds, of the bucket in which the quantile
    /// `numerator / denominator` of the times falls; for the bucket without a bound, the largest
    /// bound; 0 where there are no times.
    pub fn quantile_micros(&self, numerator: u64, denominator: u64) -> (r: u64)
        requires
            0 < denominator,
            numerator <= denominator,
        ensures
            r == self@.quantile(numerator, denominator),
    {
        if self.count == 0 {
            return 0;
        }
        let ghost product = self.count * numerator;
        assert(product <= self.count * denominator && product >= 0
            && self.count * denominator <= 0xffff_ffff_ffff_ffff * 0xffff_ffff_ffff_ffff)
            by (nonlinear_arith)
            requires
                product == self.count * numerator,
                numerator <= denominator,
        ;
        let exact: u128 = (self.count as u128 * numerator as u128 + (denominator as u128 - 1))
            / (denominator as u128);
        assert(exact <= self.count) by (nonlinear_arith)
            requires
                exact == (product + denominator - 1) / (denominator as int),
                product <= self.count * denominator,
                denominator > 0,
        ;
        let target: u64 = if exact < 1 {
            1
        } else {
            exact as u64
        };
        let mut sum: u64 = 0;
        let mut i: usize = 0;
        while i < 20
            invariant_except_break
                i <= 20,
                sum == self@.cumulative(i as nat),
                self@.reaching(target, 0) == self@.reaching(target, i as nat),
            ensures
                i <= 20,
                self@.reaching(target, 0) == i,
            decreases 20 - i,
        {
            sum = self.step(sum, i);
            if sum >= target {
                break;
            }
            i = i + 1;
        }
        match bucket_bound(i) {
            Some(b) => b,
            None => 5_000_000,
        }
    }
}

impl Default for LatencyHistogram {
    fn default() -> (r: Self)
        ensures
            r@ == (HistogramView { buckets: Seq::new(20, |i: int| 0u64), count: 0, sum_ns: 0 }),
    {
        LatencyHistogram::new()
    }
}

/// Every time that is counted is in one of the buckets: the sum of the buckets grows with the
/// count.
pub proof fn law_every_time_is_in_a_bucket(h: HistogramView, nanos: u128, times: u64)
    requires
        h.buckets.len() == 20,
        h.total(20) == h.count,
        h.count + times <= u64::MAX,
    ensures
        h.recorded(nanos, times).total(20) == h.recorded(nanos, times).count,
{
    let b = bucket_of(micros_of(nanos), 0);
    lemma_bucket_range(micros_of(nanos), 0);
    lemma_bucket_below_total(h, b as int, 20);
    lemma_total_updated(h, h.recorded(nanos, times), b as int, times as int, 20);
}

/// A bucket holds no more than all of them.
proof fn lemma_bucket_below_total(h: HistogramView, b: int, n: nat)
    requires
        0 <= b < 20,
        n <= 20,
        h.buckets.len() == 20,
    ensures
        0 <= h.total(n),
        b < n ==> h.buckets[b] <= h.total(n),
    decreases n,
{
    if n > 0 {
        lemma_bucket_below_total(h, b, (n - 1) as nat);
    }
}

/// What is added to a bucket is added to the sum.
proof fn lemma_total_updated(h: HistogramView, g: HistogramView, b: int, d: int, n: nat)
    requires
        n <= 20,
        h.buckets.len() == 20,
        g.buckets.len() == 20,
        0 <= b < 20,
        g.buckets[b] == h.buckets[b] + d,
        forall|i: int| 0 <= i < 20 && i != b ==> #[trigger] g.buckets[i] == h.buckets[i],
    ensures
        g.total(n) == h.total(n) + (if b < n {
            d
        } else {
            0
        }),
    decreases n,
{
    if n > 0 {
        lemma_total_updated(h, g, b, d, (n - 1) as nat);
    }
}

/// The last of the cumulative counts is the number of all times.
pub proof fn law_last_cumulative_count_is_the_count(h: HistogramView)
    requires
        h.buckets.len() == 20,
        h.total(20) == h.count,
    ensures
        h.cumulative(20) == h.count,
{
    lemma_cumulative_up(h, 20);
}

/// The cumulative counts up to a bucket.
proof fn lemma_cumulative_up(h: HistogramView, n: nat)
    requires
        n <= 20,
        h.buckets.len() == 20,
        h.total(20) <= u64::MAX,
    ensures
        h.cumulative(n) == h.total(n),
    decreases n,
{
    if n > 0 {
        lemma_cumulative_up(h, (n - 1) as nat);
        lemma_total_grows(h, n, 20);
    }
}

/// More buckets hold no fewer times.
proof fn lemma_total_grows(h: HistogramView, a: nat, b: nat)
    requires
        a <= b <= 20,
        h.buckets.len() == 20,
    ensures
        h.total(a) <= h.total(b),
    decreases b,
{
    if a < b {
        lemma_total_grows(h, a, (b - 1) as nat);
    }
}

/// The histogram of some times, each given in nanoseconds and with how often it is counted.
pub open spec fn histogram(times: Seq<(u128, u64)>) -> HistogramView
    decreases times.len(),
{
    if times.len() == 0 {
        HistogramView { buckets: Seq::new(20, |i: int| 0u64), count: 0, sum_ns: 0 }
    } else {
        histogram(times.drop_last()).recorded(times.last().0, times.last().1)
    }
}

/// How many of the times are counted.
pub open spec fn number(times: Seq<(u128, u64)>) -> nat
    decreases times.len(),
{
    if times.len() == 0 {
        0
    } else {
        number(times.drop_last()) + times.last().1 as nat
    }
}

/// How many of the times, in whole microseconds, are not above a bound.
pub open spec fn number_up_to(times: Seq<(u128, u64)>, bound: u64) -> nat
    decreases times.len(),
{
    if times.len() == 0 {
        0
    } else {
        number_up_to(times.drop_last(), bound) + if micros_of(times.last().0) <= bound {
            times.last().1 as nat
        } else {
            0
        }
    }
}

/// The bounds grow.
proof fn lemma_bounds_grow(i: int, j: int)
    requires
        0 <= i <= j < 19,
    ensures
        bounds()[i] <= bounds()[j],
    decreases j - i,
{
    if i < j {
        lemma_bounds_grow(i, j - 1);
    }
}

/// The bucket of a time is up to another if and only if the time is not above that one's bound.
proof fn lemma_bucket_up_to(micros: u64, from: nat, i: int)
    requires
        from <= i < 19,
    ensures
        bucket_of(micros, from) <= i <==> micros <= bounds()[i],
    decreases i - from,
{
    if micros <= bounds()[from as int] {
        lemma_bounds_grow(from as int, i);
    } else if from < i {
        lemma_bucket_up_to(micros, from + 1, i);
    } else {
        lemma_bucket_range(micros, from + 1);
    }
}

/// The sums of an empty histogram.
proof fn lemma_empty_total(n: nat)
    requires
        n <= 20,
    ensures
        histogram(Seq::empty()).total(n) == 0,
    decreases n,
{
    if n > 0 {
        lemma_empty_total((n - 1) as nat);
    }
}

/// The sums of the buckets of a histogram of some times.
proof fn lemma_histogram_total(times: Seq<(u128, u64)>, i: int)
    requires
        number(times) <= u64::MAX,
        0 <= i < 19,
    ensures
        histogram(times).buckets.len() == 20,
        histogram(times).total((i + 1) as nat) == number_up_to(times, bounds()[i]),
        histogram(times).total(20) == number(times),
        histogram(times).count == number(times),
    decreases times.len(),
{
    if times.len() == 0 {
        assert(times =~= Seq::empty());
        lemma_empty_total((i + 1) as nat);
        lemma_empty_total(20);
    } else {
        let h = histogram(times.drop_last());
        let (nanos, n) = times.last();
        let b = bucket_of(micros_of(nanos), 0) as int;
        lemma_histogram_total(times.drop_last(), i);
        lemma_bucket_range(micros_of(nanos), 0);
        lemma_bucket_up_to(micros_of(nanos), 0, i);
        lemma_bucket_below_total(h, b, 20);
        lemma_total_updated(h, h.recorded(nanos, n), b, n as int, (i + 1) as nat);
        lemma_total_updated(h, h.recorded(nanos, n), b, n as int, 20);
    }
}

/// The cumulative count of a bucket is the number of the recorded times that are not above its
/// bound; that of the last bucket, which has none, and the count are the number of all.
pub proof fn law_cumulative_count_is_the_number_of_times_up_to_the_bound(
    times: Seq<(u128, u64)>,
    i: int,
)
    requires
        number(times) <= u64::MAX,
        0 <= i < 19,
    ensures
        histogram(times).cumulative((i + 1) as nat) == number_up_to(times, bounds()[i]),
        histogram(times).cumulative(20) == number(times),
        histogram(times).count == number(times),
{
    lemma_histogram_total(times, i);
    lemma_cumulative_up(histogram(times), (i + 1) as nat);
    lemma_cumulative_up(histogram(times), 20);
}

/// The bounds of the buckets are 5, 10 and 25 microseconds, and each third bound is ten times as
/// large again.
pub proof fn law_bounds_of_the_buckets(i: int)
    requires
        0 <= i < 16,
    ensures
        bounds().len() == 19,
        bounds()[0] == 5,
        bounds()[1] == 10,
        bounds()[2] == 25,
        bounds()[i + 3] == 10 * bounds()[i],
{
}

/// The bucket of a time is the first whose bound is not below it.
proof fn lemma_bucket(micros: u64, from: nat)
    requires
        from <= 19,
    ensures
        from <= bucket_of(micros, from) <= 19,
        bucket_of(micros, from) < 19 ==> micros <= bounds()[bucket_of(micros, from) as int],
        forall|k: int|
            from <= k < bucket_of(micros, from) ==> micros > #[trigger] bounds()[k],
    decreases 19 - from,
{
    if from < 19 && micros > bounds()[from as int] {
        lemma_bucket(micros, from + 1);
    }
}

/// A time that is recorded is counted in one bucket, whose bound it does not exceed and whose
/// predecessor's bound it does; all other buckets stay as they are. The number of times and their
/// sum grow by what was recorded.
pub proof fn law_recorded_time(h: HistogramView, nanos: u128, times: u64, b: int)
    requires
        h.buckets.len() == 20,
        nanos <= u64::MAX,
        0 <= b < 20,
        b < 19 ==> nanos <= bounds()[b] * 1000 + 999,
        b > 0 ==> nanos > bounds()[b - 1] * 1000 + 999,
        h.count + times <= u64::MAX,
        h.buckets[b] + times <= u64::MAX,
        h.sum_ns + nanos * times <= u64::MAX,
    ensures
        ({
            let end = h.recorded(nanos, times);
            &&& end.buckets.len() == 20
            &&& end.buckets[b] == h.buckets[b] + times
            &&& forall|k: int|
                0 <= k < 20 && k != b ==> #[trigger] end.buckets[k] == h.buckets[k]
            &&& end.count == h.count + times
            &&& end.sum_ns == h.sum_ns + nanos * times
        }),
{
    let micros = micros_of(nanos);
    lemma_bucket(micros, 0);
    let found = bucket_of(micros, 0) as int;
    if found < b {
        assert(bounds()[found] <= bounds()[b - 1]);
    }
    if b < found {
        assert(micros > bounds()[b]);
    }
    assert(found == b);
    assert(nanos * times >= 0) by (nonlinear_arith);
}

/// The first bucket up to which there are enough times.
proof fn lemma_reaching(h: HistogramView, target: u64, from: nat)
    requires
        from <= 20,
    ensures
        from <= h.reaching(target, from) <= 20,
        h.reaching(target, from) < 20 ==> h.cumulative(h.reaching(target, from) + 1) >= target,
        forall|k: nat|
            from <= k < h.reaching(target, from) ==> #[trigger] h.cumulative(k + 1) < target,
    decreases 20 - from,
{
    if from < 20 && h.cumulative(from + 1) < target {
        lemma_reaching(h, target, from + 1);
    }
}

/// A quantile of no times is 0. Otherwise it is the bound of a bucket: that share of the times, and
/// at least one, is not above it, unless it is the largest bound; and less than that share, or none,
/// is below the bucket.
pub proof fn law_quantile(h: HistogramView, numerator: u64, denominator: u64) -> (b: int)
    requires
        0 < numerator <= denominator,
    ensures
        h.count == 0 ==> h.quantile(numerator, denominator) == 0,
        h.count > 0 ==> {
            &&& 0 <= b <= 18
            &&& h.quantile(numerator, denominator) == bounds()[b]
            &&& b < 18 ==> h.cumulative((b + 1) as nat) >= 1 && h.cumulative((b + 1) as nat)
                * denominator >= h.count * numerator
            &&& b > 0 ==> h.cumulative(b as nat) * denominator < h.count * numerator
        },
{
    if h.count == 0 {
        0
    } else {
        let count = h.count as int;
        let n = numerator as int;
        let d = denominator as int;
        let product = count * n;
        let exact = (product + d - 1) / d;
        assert(1 <= product <= count * d) by (nonlinear_arith)
            requires
                product == count * n,
                1 <= count,
                1 <= n <= d,
        ;
        assert(1 <= exact <= count && exact * d >= product && (exact - 1) * d < product)
            by (nonlinear_arith)
            requires
                exact == (product + d - 1) / d,
                1 <= product <= count * d,
                1 <= d,
                1 <= count,
        ;
        let target = exact as u64;
        lemma_reaching(h, target, 0);
        let r = h.reaching(target, 0);
        let b: int = if r < 18 {
            r as int
        } else {
            18
        };
        if b < 18 {
            let c = h.cumulative((b + 1) as nat) as int;
            assert(c * d >= product) by (nonlinear_arith)
                requires
                    c >= exact,
                    exact * d >= product,
                    d >= 1,
            ;
        }
        if b > 0 {
            assert(h.cumulative(((b - 1) as nat) + 1) < target);
            let c = h.cumulative(b as nat) as int;
            assert(c * d < product) by (nonlinear_arith)
                requires
                    c <= exact - 1,
                    (exact - 1) * d < product,
                    d >= 1,
            ;
        }
        b
    }
}

} // verus!
