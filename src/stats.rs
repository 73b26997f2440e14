use vstd::prelude::*;

verus! {

/// Ratings are fixed-point numbers counted in thousandths: `2500` stands for 2.5.
pub const RATING_SCALE: i32 = 1000;

/// Where a baseline has no spread, a rating whose magnitude exceeds this (2.0) is anomalous.
pub const FIXED_THRESHOLD: i32 = 2 * RATING_SCALE;

/// Where a baseline has spread, a rating further from its mean than this many
/// standard deviations is anomalous.
pub const THRESHOLD_MULTIPLE: u128 = 2;

/// Sum of a sequence of ratings.
pub open spec fn rating_sum(s: Seq<i32>) -> int
    decreases s.len(),
{
    if s.len() == 0 {
        0
    } else {
        rating_sum(s.drop_last()) + s.last()
    }
}

/// Sum of the squares of a sequence of ratings.
pub open spec fn rating_sum_sq(s: Seq<i32>) -> int
    decreases s.len(),
{
    if s.len() == 0 {
        0
    } else {
        rating_sum_sq(s.drop_last()) + s.last() * s.last()
    }
}

/// `count² · variance`, that is `count · Σr² − (Σr)²`. Never negative for
/// accumulators built from ratings; clamped at zero wherever it is used.
pub open spec fn spread_of(sum: int, sum_sq: int, count: int) -> int {
    let v = count * sum_sq - sum * sum;
    if v > 0 {
        v
    } else {
        0
    }
}

/// The anomaly rule on exact values. With no spread the rating's own magnitude
/// is held against the fixed threshold; otherwise `|rating − mean| > k·σ`,
/// multiplied through by `count` and squared: `(count·rating − Σr)² > k²·count²·variance`.
pub open spec fn anomalous_against(rating: int, sum: int, sum_sq: int, count: int) -> bool {
    let v = spread_of(sum, sum_sq, count);
    if v == 0 {
        rating > FIXED_THRESHOLD || rating < -FIXED_THRESHOLD
    } else {
        (count * rating - sum) * (count * rating - sum) > (THRESHOLD_MULTIPLE * THRESHOLD_MULTIPLE)
            * v
    }
}

/// The verdict on `rating` against a baseline made of the ratings `history`.
pub open spec fn anomalous_against_history(rating: int, history: Seq<i32>) -> bool {
    anomalous_against(rating, rating_sum(history), rating_sum_sq(history), history.len() as int)
}

/// `d` is the standard deviation rounded down: `(d·count)² ≤ count²·variance < ((d+1)·count)²`.
pub open spec fn is_floor_std_dev(d: int, sum: int, sum_sq: int, count: int) -> bool {
    let v = spread_of(sum, sum_sq, count);
    &&& 0 <= d
    &&& (d * count) * (d * count) <= v
    &&& v < ((d + 1) * count) * ((d + 1) * count)
}

/// An exact fraction `numer / denom`.
#[derive(Clone, Copy, Debug, PartialEq, Eq, Structural)]
pub struct Quotient {
    pub numer: i128,
    pub denom: u128,
}

/// What can go wrong when a statistic is asked of its accumulator.
#[derive(Clone, Copy, Debug, PartialEq, Eq, Structural)]
pub enum StatsError {
    /// The accumulator holds no rating.
    EmptyStatistics,
}

/// Running sums of the ratings folded into one entity's baseline.
#[derive(Clone, Copy, Debug, PartialEq, Eq, Structural)]
pub struct EntityStatistics {
    pub sum: i64,
    pub sum_sq: u128,
    pub count: u32,
}

proof fn lemma_square_bound(r: i32)
    ensures
        0 <= r * r <= 0x4000_0000_0000_0000,
{
    assert(0 <= r * r <= 0x4000_0000_0000_0000) by (nonlinear_arith)
        requires
            -0x8000_0000 <= r <= 0x7fff_ffff,
    ;
}

impl EntityStatistics {
    /// The sums stay within what `count` ratings of `i32` can reach.
    pub open spec fn wf(&self) -> bool {
        &&& -(self.count as int) * 0x8000_0000 <= self.sum <= (self.count as int) * 0x8000_0000
        &&& self.sum_sq <= (self.count as int) * 0x4000_0000_0000_0000
    }

    /// The accumulator holds exactly the ratings `ratings`.
    pub open spec fn summarizes(&self, ratings: Seq<i32>) -> bool {
        &&& self.sum == rating_sum(ratings)
        &&& self.sum_sq == rating_sum_sq(ratings)
        &&& self.count == ratings.len()
    }

    /// The accumulator of no rating.
    pub fn new() -> (r: EntityStatistics)
        ensures
            r.wf(),
            r.summarizes(Seq::empty()),
    {
        EntityStatistics { sum: 0, sum_sq: 0, count: 0 }
    }

    /// Folds one rating in.
    pub fn update(&mut self, rating: i32)
        requires
            old(self).wf(),
            old(self).count < u32::MAX,
        ensures
            final(self).wf(),
            final(self).sum == old(self).sum + rating,
            final(self).sum_sq == old(self).sum_sq + rating * rating,
            final(self).count == old(self).count + 1,
            forall|s: Seq<i32>|
                old(self).summarizes(s) ==> #[trigger] final(self).summarizes(s.push(rating)),
    {
        proof {
            lemma_square_bound(rating);
        }
        self.sum = self.sum + rating as i64;
        self.sum_sq = self.sum_sq + (rating as i64 * rating as i64) as u128;
        self.count = self.count + 1;
        assert forall|s: Seq<i32>| old(self).summarizes(s) implies #[trigger] self.summarizes(
            s.push(rating),
        ) by {
            assert(s.push(rating).drop_last() =~= s);
        }
    }

    /// The accumulator of the ratings of `ratings`, folded in order.
    pub fn from_ratings(ratings: &Vec<i32>) -> (r: EntityStatistics)
        requires
            ratings.len() < u32::MAX,
        ensures
            r.wf(),
            r.summarizes(ratings@),
    {
        let mut acc = EntityStatistics::new();
        let mut i: usize = 0;
        while i < ratings.len()
            invariant
                i <= ratings.len() < u32::MAX,
                acc.wf(),
                acc.summarizes(ratings@.take(i as int)),
            decreases ratings.len() - i,
        {
            assert(ratings@.take(i as int + 1) =~= ratings@.take(i as int).push(ratings@[i as int]));
            acc.update(ratings[i]);
            i = i + 1;
        }
        assert(ratings@.take(i as int) =~= ratings@);
        acc
    }

    /// The mean rating, `sum / count`; fails on an empty accumulator.
    pub fn mean(&self) -> (r: Result<Quotient, StatsError>)
        ensures
            self.count == 0 <==> r == Err::<Quotient, StatsError>(StatsError::EmptyStatistics),
            r is Ok ==> r->Ok_0.numer == self.sum && r->Ok_0.denom == self.count,
    {
        if self.count == 0 {
            Err(StatsError::EmptyStatistics)
        } else {
            Ok(Quotient { numer: self.sum as i128, denom: self.count as u128 })
        }
    }

    /// `count · Σr² − (Σr)²` clamped at zero, computed without overflow.
    fn spread(&self) -> (r: u128)
        requires
            self.wf(),
        ensures
            r == spread_of(self.sum as int, self.sum_sq as int, self.count as int),
            r <= (self.count as int) * (self.count as int) * 0x4000_0000_0000_0000,
    {
        let n = self.count as i128;
        let s = self.sum as i128;
        let q = self.sum_sq as i128;
        proof {
            let ni = n as int;
            let si = s as int;
            let qi = q as int;
            assert(0 <= ni * qi <= ni * ni * 0x4000_0000_0000_0000) by (nonlinear_arith)
                requires
                    0 <= ni,
                    0 <= qi <= ni * 0x4000_0000_0000_0000,
            ;
            assert(0 <= si * si <= ni * ni * 0x4000_0000_0000_0000) by (nonlinear_arith)
                requires
                    -ni * 0x8000_0000 <= si <= ni * 0x8000_0000,
            ;
            assert(ni * ni <= 0xffff_ffff * 0xffff_ffff) by (nonlinear_arith)
                requires
                    0 <= ni <= 0xffff_ffff,
            ;
        }
        let v = n * q - s * s;
        if v > 0 {
            v as u128
        } else {
            0
        }
    }

    /// The population variance, `(count · Σr² − (Σr)²) / count²`, clamped at
    /// zero; fails on an empty accumulator.
    pub fn variance(&self) -> (r: Result<Quotient, StatsError>)
        requires
            self.wf(),
        ensures
            self.count == 0 <==> r == Err::<Quotient, StatsError>(StatsError::EmptyStatistics),
            r is Ok ==> r->Ok_0.numer == spread_of(
                self.sum as int,
                self.sum_sq as int,
                self.count as int,
            ) && r->Ok_0.denom == self.count * self.count,
    {
        if self.count == 0 {
            Err(StatsError::EmptyStatistics)
        } else {
            let v = self.spread();
            proof {
                let ni = self.count as int;
                assert(ni * ni <= 0xffff_ffff * 0xffff_ffff) by (nonlinear_arith)
                    requires
                        0 <= ni <= 0xffff_ffff,
                ;
                assert(ni * ni * 0x4000_0000_0000_0000 <= 0xffff_ffff * 0xffff_ffff
                    * 0x4000_0000_0000_0000) by (nonlinear_arith)
                    requires
                        0 <= ni * ni <= 0xffff_ffff * 0xffff_ffff,
                ;
            }
            let n = self.count as u128;
            Ok(Quotient { numer: v as i128, denom: n * n })
        }
    }

    /// The population standard deviation in thousandths, rounded down; fails on
    /// an empty accumulator.
    pub fn std_dev(&self) -> (r: Result<u64, StatsError>)
        requires
            self.wf(),
        ensures
            self.count == 0 <==> r == Err::<u64, StatsError>(StatsError::EmptyStatistics),
            r is Ok ==> is_floor_std_dev(
                r->Ok_0 as int,
                self.sum as int,
                self.sum_sq as int,
                self.count as int,
            ),
    {
        if self.count == 0 {
            return Err(StatsError::EmptyStatistics);
        }
        let v = self.spread();
        let t = floor_sqrt(v);
        let n = self.count as u64;
        let d = t / n;
        proof {
            let ti = t as int;
            let ni = n as int;
            let di = d as int;
            let vi = v as int;
            let rem = ti % ni;
            assert(ti == di * ni + rem && 0 <= rem < ni) by (nonlinear_arith)
                requires
                    di == ti / ni,
                    rem == ti % ni,
                    ni > 0,
            ;
            assert((di * ni) * (di * ni) <= vi) by (nonlinear_arith)
                requires
                    ti == di * ni + rem,
                    0 <= rem,
                    0 <= di,
                    0 <= ni,
                    ti * ti <= vi,
            ;
            assert(vi < ((di + 1) * ni) * ((di + 1) * ni)) by (nonlinear_arith)
                requires
                    ti == di * ni + rem,
                    rem < ni,
                    0 <= ti,
                    vi < (ti + 1) * (ti + 1),
            ;
        }
        Ok(d)
    }
}

/// A baseline of a single rating, whatever its value, has no spread, and its
/// standard deviation is zero.
pub proof fn lemma_single_rating_std_dev_zero(stats: EntityStatistics, rating: i32, d: int)
    requires
        stats.summarizes(seq![rating]),
    ensures
        spread_of(stats.sum as int, stats.sum_sq as int, stats.count as int) == 0,
        is_floor_std_dev(d, stats.sum as int, stats.sum_sq as int, stats.count as int) <==> d
            == 0,
{
    let s = seq![rating];
    assert(s.drop_last() =~= Seq::<i32>::empty());
    assert(s.last() == rating);
    assert(rating_sum(s) == rating_sum(s.drop_last()) + s.last());
    assert(rating_sum_sq(s) == rating_sum_sq(s.drop_last()) + s.last() * s.last());
    assert(stats.sum == rating as int);
    assert(stats.sum_sq == rating as int * rating as int);
    if is_floor_std_dev(d, stats.sum as int, stats.sum_sq as int, stats.count as int) {
        assert(d * d <= 0);
        assert(d == 0) by (nonlinear_arith)
            requires
                0 <= d,
                d * d <= 0,
        ;
    }
    if d == 0 {
        let c = stats.count as int;
        assert(c == 1);
        assert((d * c) * (d * c) == 0 && ((d + 1) * c) * ((d + 1) * c) == 1) by (nonlinear_arith)
            requires
                d == 0,
                c == 1,
        ;
    }
}

proof fn lemma_sums_remove(s: Seq<i32>, i: int)
    requires
        0 <= i < s.len(),
    ensures
        rating_sum(s) == rating_sum(s.remove(i)) + s[i],
        rating_sum_sq(s) == rating_sum_sq(s.remove(i)) + s[i] * s[i],
    decreases s.len(),
{
    if i == s.len() - 1 {
        assert(s.remove(i) =~= s.drop_last());
    } else {
        lemma_sums_remove(s.drop_last(), i);
        assert(s.remove(i).drop_last() =~= s.drop_last().remove(i));
        assert(s.remove(i).last() == s.last());
    }
}

/// Folding the same ratings in any order gives the same sums and count, hence
/// the same mean, variance and standard deviation.
pub proof fn lemma_fold_order_irrelevant(a: Seq<i32>, b: Seq<i32>)
    requires
        a.to_multiset() == b.to_multiset(),
    ensures
        rating_sum(a) == rating_sum(b),
        rating_sum_sq(a) == rating_sum_sq(b),
        a.len() == b.len(),
    decreases a.len(),
{
    broadcast use vstd::seq_lib::group_to_multiset_ensures;

    assert(a.len() == a.to_multiset().len());
    assert(b.len() == b.to_multiset().len());
    if a.len() > 0 {
        let x = a.last();
        let a0 = a.drop_last();
        assert(a =~= a0.push(x));
        assert(a0.push(x).to_multiset() =~= a0.to_multiset().insert(x));
        assert(a.to_multiset().count(x) > 0);
        assert(b.to_multiset().count(x) > 0);
        assert(b.contains(x));
        let i = choose|i: int| 0 <= i < b.len() && b[i] == x;
        let b0 = b.remove(i);
        assert(b0.to_multiset() =~= b.to_multiset().remove(x));
        assert(a0.to_multiset() =~= a.to_multiset().remove(x));
        lemma_fold_order_irrelevant(a0, b0);
        lemma_sums_remove(b, i);
    }
}

/// Two accumulators of the same ratings, folded in whatever order, are equal,
/// so they give the same mean, variance and standard deviation.
pub proof fn lemma_same_ratings_same_statistics(
    x: EntityStatistics,
    y: EntityStatistics,
    a: Seq<i32>,
    b: Seq<i32>,
)
    requires
        x.summarizes(a),
        y.summarizes(b),
        a.to_multiset() == b.to_multiset(),
    ensures
        x == y,
{
    lemma_fold_order_irrelevant(a, b);
}

/// The largest `t` with `t² ≤ v`.
fn floor_sqrt(v: u128) -> (t: u64)
    ensures
        (t as int) * (t as int) <= v,
        v < (t as int + 1) * (t as int + 1),
{
    let mut lo: u128 = 0;
    let mut hi: u128 = 0x1_0000_0000_0000_0000;
    while hi - lo > 1
        invariant
            lo < hi <= 0x1_0000_0000_0000_0000,
            lo * lo <= v,
            v < hi * hi,
        decreases hi - lo,
    {
        let mid = lo + (hi - lo) / 2;
        assert(mid * mid < 0x1_0000_0000_0000_0000 * 0x1_0000_0000_0000_0000) by (nonlinear_arith)
            requires
                0 <= mid < 0x1_0000_0000_0000_0000,
        ;
        if mid * mid <= v {
            lo = mid;
        } else {
            hi = mid;
        }
    }
    lo as u64
}

/// Decides whether `rating` is anomalous against the baseline `stats`: with no
/// spread, by its magnitude against the fixed threshold; otherwise by its
/// distance from the mean against a multiple of the standard deviation. A pure
/// function of its arguments.
pub fn classify(rating: i32, stats: &EntityStatistics) -> (r: bool)
    requires
        stats.wf(),
    ensures
        r == anomalous_against(
            rating as int,
            stats.sum as int,
            stats.sum_sq as int,
            stats.count as int,
        ),
{
    let v = stats.spread();
    if v == 0 {
        return rating > FIXED_THRESHOLD || rating < -FIXED_THRESHOLD;
    }
    let n = stats.count as i128;
    proof {
        assert(-(n as int) * 0x8000_0000 <= (n as int) * (rating as int) <= (n as int) * 0x8000_0000)
            by (nonlinear_arith)
            requires
                0 <= n as int,
                -0x8000_0000 <= rating as int <= 0x8000_0000,
        ;
    }
    let a = n * (rating as i128) - stats.sum as i128;
    let a_abs: u128 = if a < 0 {
        (-a) as u128
    } else {
        a as u128
    };
    proof {
        let ni = n as int;
        let ri = rating as int;
        let si = stats.sum as int;
        let ai = a_abs as int;
        assert(ai <= ni * 0x1_0000_0000);
        assert(ai * ai <= 0xffff_ffff * 0x1_0000_0000 * 0xffff_ffff * 0x1_0000_0000)
            by (nonlinear_arith)
            requires
                0 <= ai <= ni * 0x1_0000_0000,
                0 <= ni <= 0xffff_ffff,
        ;
        assert(ai * ai == (a as int) * (a as int)) by (nonlinear_arith)
            requires
                ai == a || ai == -a,
        ;
        assert(ni * ni <= 0xffff_ffff * 0xffff_ffff) by (nonlinear_arith)
            requires
                0 <= ni <= 0xffff_ffff,
        ;
        assert(ni * ni * 0x4000_0000_0000_0000 <= 0xffff_ffff * 0xffff_ffff
            * 0x4000_0000_0000_0000) by (nonlinear_arith)
            requires
                0 <= ni * ni <= 0xffff_ffff * 0xffff_ffff,
        ;
    }
    assert((v as int) <= 0xffff_ffff * 0xffff_ffff * 0x4000_0000_0000_0000);
    assert(THRESHOLD_MULTIPLE * THRESHOLD_MULTIPLE * (v as int) <= 4 * 0xffff_ffff * 0xffff_ffff
        * 0x4000_0000_0000_0000);
    a_abs * a_abs > THRESHOLD_MULTIPLE * THRESHOLD_MULTIPLE * v
}

} // verus!
