use vstd::prelude::*;
use crate::bins::{BinList, bin_items, spliced};
use crate::model::{
    lemma_count_at_least_len, lemma_merge_index_exists, lemma_within_merged, lemma_within_widen,
    lemma_within_with_sample, within,
    all_bins_ok, ascending, below, bin_ok, count_of, gap_den, gap_lt, gap_num, insert_pos,
    is_merge_index, lemma_bin_count, lemma_insert_pos_exists, lemma_insert_pos_unique,
    lemma_merge_index_unique, lemma_merged_ok, lemma_new_best, lemma_pair_count,
    lemma_prefix_count, lemma_prefix_step, lemma_sum_bounds, lemma_with_sample_ok, merged,
    seq_sum, sum_of, with_sample, within_budget,
};
use crate::ratio::{Ratio, floor_form, lemma_mixed_order, product_less, shift};

verus! {

/// The smallest number of bins a histogram keeps.
pub const MIN_BINS: usize = 10;

/// The most samples a histogram takes: its counter is a `u64`.
pub const MAX_SAMPLES: u64 = 0xFFFF_FFFF_FFFF_FFFF;

/// A streaming histogram: at most `max_bins` bins, ascending by value, with
/// the exact smallest and largest sample seen.
pub struct Histogram {
    bins: BinList,
    max_bins: usize,
    total: u64,
    min: Option<i64>,
    max: Option<i64>,
}

/// The abstract state of a histogram.
pub struct HistogramModel {
    pub bins: Seq<(i128, u64)>,
    pub max_bins: nat,
    pub total: nat,
    pub min: Option<i64>,
    pub max: Option<i64>,
}

/// The smaller of an optional running minimum and a new sample.
pub open spec fn lower(m: Option<i64>, v: i64) -> Option<i64> {
    match m {
        Some(x) => if v < x { Some(v) } else { Some(x) },
        None => Some(v),
    }
}

/// The larger of an optional running maximum and a new sample.
pub open spec fn higher(m: Option<i64>, v: i64) -> Option<i64> {
    match m {
        Some(x) => if v > x { Some(v) } else { Some(x) },
        None => Some(v),
    }
}

impl HistogramModel {
    /// A new histogram for the requested number of bins.
    pub open spec fn empty(capacity: nat) -> HistogramModel {
        HistogramModel {
            bins: Seq::empty(),
            max_bins: if capacity < MIN_BINS { MIN_BINS as nat } else { capacity },
            total: 0,
            min: None,
            max: None,
        }
    }

    /// The state after the sample `v` is added.
    pub open spec fn step(self, v: i64) -> HistogramModel {
        HistogramModel {
            bins: within_budget(with_sample(self.bins, v as int), self.max_bins as int),
            max_bins: self.max_bins,
            total: self.total + 1,
            min: lower(self.min, v),
            max: higher(self.max, v),
        }
    }

    /// The state after the samples `vs` are added in order.
    pub open spec fn run(self, vs: Seq<i64>) -> HistogramModel
        decreases vs.len(),
    {
        if vs.len() == 0 {
            self
        } else {
            self.run(vs.drop_last()).step(vs.last())
        }
    }

    /// The invariant of every histogram.
    pub open spec fn wf(self) -> bool {
        &&& MIN_BINS <= self.max_bins <= usize::MAX
        &&& self.bins.len() <= self.max_bins
        &&& ascending(self.bins)
        &&& all_bins_ok(self.bins)
        &&& self.total == count_of(self.bins)
        &&& self.total <= MAX_SAMPLES
        &&& (self.total == 0) == (self.min is None)
        &&& (self.total == 0) == (self.max is None)
        &&& (self.min is Some && self.max is Some) ==> within(
            self.bins,
            self.min->0 as int,
            self.max->0 as int,
        )
    }

    /// A step keeps every bin's value between the smallest and the largest
    /// sample.
    pub proof fn lemma_step_within(self, v: i64)
        requires
            self.wf(),
            self.total < MAX_SAMPLES,
        ensures
            within(self.step(v).bins, self.step(v).min->0 as int, self.step(v).max->0 as int),
    {
        let lo = lower(self.min, v)->0 as int;
        let hi = higher(self.max, v)->0 as int;
        if self.min is Some {
            lemma_within_widen(self.bins, self.min->0 as int, self.max->0 as int, lo, hi);
        } else {
            lemma_count_at_least_len(self.bins);
        }
        lemma_with_sample_ok(self.bins, v);
        lemma_within_with_sample(self.bins, v, lo, hi);
        let t = with_sample(self.bins, v as int);
        if t.len() > self.max_bins {
            let i = lemma_merge_index_exists(t);
            lemma_within_merged(t, i, lo, hi);
        }
    }
}

impl Default for Histogram {
    /// A histogram of a hundred bins.
    fn default() -> (r: Histogram)
        ensures
            r@ == HistogramModel::empty(100),
            r@.wf(),
    {
        Histogram::new(100)
    }
}

impl View for Histogram {
    type V = HistogramModel;

    closed spec fn view(&self) -> HistogramModel {
        HistogramModel {
            bins: bin_items(self.bins),
            max_bins: self.max_bins as nat,
            total: self.total as nat,
            min: self.min,
            max: self.max,
        }
    }
}

proof fn lemma_sample_times_count(v: i64, c: u64)
    requires
        c <= MAX_SAMPLES,
    ensures
        -0x7FFF_FFFF_FFFF_FFFF_FFFF_FFFF_FFFF_FFFF <= v * c <= 0x7FFF_FFFF_FFFF_FFFF_FFFF_FFFF_FFFF_FFFF,
{
    assert(-0x8000_0000_0000_0000 * 0xFFFF_FFFF_FFFF_FFFF <= v * c <= 0x7FFF_FFFF_FFFF_FFFF * 0xFFFF_FFFF_FFFF_FFFF)
        by (nonlinear_arith)
        requires
            -0x8000_0000_0000_0000 <= v <= 0x7FFF_FFFF_FFFF_FFFF,
            0 <= c <= 0xFFFF_FFFF_FFFF_FFFF,
    ;
}

/// A bin's value as a ratio.
pub open spec fn bin_ratio(b: (i128, u64)) -> Ratio {
    Ratio { num: b.0, den: b.1 }
}

/// The mean of all samples, if there is one.
pub open spec fn mean_of(m: HistogramModel) -> Option<Ratio> {
    if m.total == 0 {
        None
    } else {
        Some(Ratio { num: sum_of(m.bins) as i128, den: m.total as u64 })
    }
}

/// A fraction `q` of all samples lies in the bins up to and including `i`.
pub open spec fn reaches(m: HistogramModel, q: Ratio, i: int) -> bool {
    q.den * count_of(m.bins.subrange(0, i + 1)) >= q.num * m.total
}

/// `i` is the first bin up to which a fraction `q` of the samples lies.
pub open spec fn is_quantile_bin(m: HistogramModel, q: Ratio, i: int) -> bool {
    &&& 0 <= i < m.bins.len()
    &&& reaches(m, q, i)
    &&& forall|j: int| 0 <= j < i ==> !#[trigger] reaches(m, q, j)
}

/// The value of the first bin up to which a fraction `q` of the samples lies.
pub open spec fn quantile_of(m: HistogramModel, q: Ratio) -> Option<Ratio> {
    if exists|i: int| is_quantile_bin(m, q, i) {
        Some(bin_ratio(m.bins[choose|i: int| is_quantile_bin(m, q, i)]))
    } else {
        None
    }
}

/// A bin's value is at most `x`.
pub open spec fn at_most(b: (i128, u64), x: Ratio) -> bool {
    b.0 * x.den <= x.num * b.1
}

/// How many samples lie in bins whose value is at most `x`.
pub open spec fn count_at_most(s: Seq<(i128, u64)>, x: Ratio) -> int {
    seq_sum(s, |b: (i128, u64)| if at_most(b, x) { b.1 as int } else { 0 })
}

/// The fraction of samples in bins whose value is at most `x`, if there is
/// any sample.
pub open spec fn cdf_of(m: HistogramModel, x: Ratio) -> Option<Ratio> {
    if m.total == 0 {
        None
    } else {
        Some(Ratio { num: count_at_most(m.bins, x) as i128, den: m.total as u64 })
    }
}

/// The gap before bin `i` as `k + p / d` with `0 <= p < d`, where `d` is
/// the gap's denominator.
fn gap_parts(items: &Vec<(i128, u64)>, i: usize) -> (r: (i128, u128, u128))
    requires
        1 <= i < items@.len(),
        all_bins_ok(items@),
        count_of(items@) <= MAX_SAMPLES,
    ensures
        r.2 == gap_den(items@, i as int),
        r.1 < r.2 < 0x4000_0000_0000_0000_0000_0000_0000_0000,
        r.0 * r.2 + r.1 == gap_num(items@, i as int),
{
    let a = items[i - 1];
    let b = items[i];
    proof {
        lemma_pair_count(items@, i as int);
        assert(bin_ok(items@[i - 1]));
        assert(bin_ok(items@[i as int]));
    }
    let (qa, ra) = floor_form(a.0, a.1);
    let (qb, rb) = floor_form(b.0, b.1);
    let (ca, cb) = (a.1 as u128, b.1 as u128);
    proof {
        assert(ca * cb < 0x4000_0000_0000_0000_0000_0000_0000_0000) by (nonlinear_arith)
            requires
                ca + cb <= 0xFFFF_FFFF_FFFF_FFFF,
                ca >= 1,
                cb >= 1,
        {
            assert((ca - cb) * (ca - cb) >= 0);
        }
        assert(rb * ca < cb * ca) by (nonlinear_arith)
            requires
                rb < cb,
                ca >= 1,
        ;
        assert(ra * cb < ca * cb) by (nonlinear_arith)
            requires
                ra < ca,
                cb >= 1,
        ;
    }
    let d = cb * ca;
    let x = rb * ca;
    let y = ra * cb;
    let k0 = qb as i128 - qa as i128;
    proof {
        let (qa, qb, ra, rb) = (qa as int, qb as int, ra as int, rb as int);
        assert(b.0 * ca - a.0 * cb == (qb - qa) * (cb * ca) + rb * ca - ra * cb) by (nonlinear_arith)
            requires
                b.0 == (qb - shift()) * cb + rb,
                a.0 == (qa - shift()) * ca + ra,
        ;
    }
    if x >= y {
        (k0, x - y, d)
    } else {
        assert((k0 - 1) * d + (d - (y - x)) == k0 * d + x - y) by (nonlinear_arith);
        (k0 - 1, d - (y - x), d)
    }
}

/// Whether the gap before bin `i` is smaller than the gap before bin `j`.
fn gap_less(items: &Vec<(i128, u64)>, i: usize, j: usize) -> (r: bool)
    requires
        1 <= i < items@.len(),
        1 <= j < items@.len(),
        all_bins_ok(items@),
        count_of(items@) <= MAX_SAMPLES,
    ensures
        r == gap_lt(items@, i as int, j as int),
{
    let (ki, pi, di) = gap_parts(items, i);
    let (kj, pj, dj) = gap_parts(items, j);
    proof {
        lemma_mixed_order(ki as int, pi as int, di as int, kj as int, pj as int, dj as int);
    }
    ki < kj || (ki == kj && product_less(pi, dj, pj, di))
}

impl Histogram {
    /// A histogram that keeps at most `max` bins; a `max` below ten is
    /// raised to ten.
    pub fn new(max: usize) -> (r: Histogram)
        ensures
            r@ == HistogramModel::empty(max as nat),
            r@.wf(),
    {
        let mut max_bin = max;
        if max_bin < MIN_BINS {
            max_bin = MIN_BINS;
        }
        Histogram { bins: BinList::new(), max_bins: max_bin, total: 0, min: None, max: None }
    }

    /// How many samples were added.
    pub fn total(&self) -> (r: u64)
        ensures
            r == self@.total,
    {
        self.total
    }

    /// The most bins this histogram keeps.
    pub fn max_bins(&self) -> (r: usize)
        ensures
            r == self@.max_bins,
    {
        self.max_bins
    }

    /// The smallest sample added, if any.
    pub fn min(&self) -> (r: Option<i64>)
        ensures
            r == self@.min,
    {
        self.min
    }

    /// The largest sample added, if any.
    pub fn max(&self) -> (r: Option<i64>)
        ensures
            r == self@.max,
    {
        self.max
    }

    /// The bins in ascending order of value, each as `(sum, count)`.
    pub fn bins(&self) -> (r: Vec<(i128, u64)>)
        ensures
            r@ == self@.bins,
    {
        self.bins.to_vec()
    }

    /// Merges the two neighbouring bins closest in value when there is one
    /// bin too many.
    fn merge_bin(&mut self)
        requires
            old(self).max_bins >= MIN_BINS,
            ascending(old(self)@.bins),
            all_bins_ok(old(self)@.bins),
            count_of(old(self)@.bins) <= MAX_SAMPLES,
            old(self)@.bins.len() <= old(self).max_bins + 1,
        ensures
            final(self)@ == (HistogramModel {
                bins: within_budget(old(self)@.bins, old(self).max_bins as int),
                ..old(self)@
            }),
            final(self)@.bins.len() <= final(self).max_bins,
            ascending(final(self)@.bins),
            all_bins_ok(final(self)@.bins),
            count_of(final(self)@.bins) == count_of(old(self)@.bins),
    {
        let items = self.bins.to_vec();
        let n = items.len();
        if n <= self.max_bins {
            return;
        }
        let mut best: usize = 1;
        let mut k: usize = 2;
        while k < n
            invariant
                n == items@.len(),
                items@ == bin_items(self.bins),
                ascending(items@),
                all_bins_ok(items@),
                count_of(items@) <= MAX_SAMPLES,
                1 <= best < k <= n,
                forall|j: int| 1 <= j < best ==> #[trigger] gap_lt(items@, best as int, j),
                forall|j: int| best <= j < k ==> !#[trigger] gap_lt(items@, j, best as int),
            decreases n - k,
        {
            if gap_less(&items, k, best) {
                proof {
                    lemma_new_best(items@, best as int, k as int);
                }
                best = k;
            }
            k = k + 1;
        }
        proof {
            let s = items@;
            assert(is_merge_index(s, best as int));
            let c = choose|i: int| is_merge_index(s, i);
            lemma_merge_index_unique(s, best as int, c);
            lemma_merged_ok(s, best as int);
            lemma_pair_count(s, best as int);
            assert(bin_ok(s[best - 1]) && bin_ok(s[best as int]));
        }
        let a = items[best - 1];
        let b = items[best];
        self.bins.splice(best - 1, 2, (a.0 + b.0, a.1 + b.1));
        proof {
            assert(bin_items(self.bins) == merged(items@, best as int));
        }
    }

    /// Adds one sample: the bin of equal value counts it once more, or a new
    /// bin is put in its place by value and, if that makes one bin too many,
    /// the two neighbours closest in value are merged.
    pub fn add(&mut self, number: i64)
        requires
            old(self)@.wf(),
            old(self)@.total < MAX_SAMPLES,
        ensures
            final(self)@ == old(self)@.step(number),
            final(self)@.wf(),
    {
        let ghost s = self@.bins;
        proof {
            lemma_with_sample_ok(s, number);
            self@.lemma_step_within(number);
        }
        self.total = self.total + 1;
        match self.min {
            Some(v) => {
                if number < v {
                    self.min = Some(number);
                }
            },
            None => {
                self.min = Some(number);
            },
        }
        match self.max {
            Some(v) => {
                if number > v {
                    self.max = Some(number);
                }
            },
            None => {
                self.max = Some(number);
            },
        }
        let items = self.bins.to_vec();
        let n = items.len();
        let v = number as i128;
        let mut pos: usize = n;
        let mut i: usize = 0;
        while i < n
            invariant
                n == items@.len(),
                items@ == s,
                all_bins_ok(s),
                count_of(s) < MAX_SAMPLES,
                i <= n,
                v == number,
                (pos == n && forall|j: int| 0 <= j < i ==> #[trigger] below(s[j], v as int)) || (pos < i
                    && insert_pos(s, v as int, pos as int)),
            decreases n - i,
        {
            proof {
                lemma_bin_count(s, i as int);
                lemma_sample_times_count(number, items@[i as int].1);
            }
            if pos == n && items[i].0 >= v * (items[i].1 as i128) {
                pos = i;
            }
            i = i + 1;
        }
        proof {
            lemma_insert_pos_exists(s, v as int);
            let c = choose|p: int| insert_pos(s, v as int, p);
            lemma_insert_pos_unique(s, v as int, pos as int, c);
        }
        if pos < n {
            proof {
                lemma_bin_count(s, pos as int);
                lemma_sample_times_count(number, items@[pos as int].1);
            }
        }
        if pos < n && items[pos].0 == v * (items[pos].1 as i128) {
            let b = items[pos];
            proof {
                assert(bin_ok(s[pos as int]));
            }
            let nb = (b.0 + v, b.1 + 1);
            self.bins.splice(pos, 1, nb);
            proof {
                assert(spliced(s, pos as int, 1, nb) =~= s.update(pos as int, nb));
                assert(self@.bins == with_sample(s, v as int));
                assert(self@.bins.len() == s.len());
            }
        } else {
            let nb = (v, 1u64);
            self.bins.splice(pos, 0, nb);
            proof {
                assert(spliced(s, pos as int, 0, nb) =~= s.insert(pos as int, nb));
            }
            self.merge_bin();
        }
    }

    /// The mean of all samples as the exact ratio of their sum to their
    /// number; `None` before the first sample.
    pub fn mean(&self) -> (r: Option<Ratio>)
        requires
            self@.wf(),
        ensures
            r == mean_of(self@),
            r matches Some(x) ==> x.in_range(),
    {
        if self.total == 0 {
            return None;
        }
        let items = self.bins.to_vec();
        let n = items.len();
        let mut sum: i128 = 0;
        let mut i: usize = 0;
        let ghost s = items@;
        while i < n
            invariant
                n == s.len(),
                items@ == s,
                s == self@.bins,
                self@.wf(),
                i <= n,
                sum == sum_of(s.subrange(0, i as int)),
            decreases n - i,
        {
            proof {
                lemma_prefix_step(s, i as int, |b: (i128, u64)| b.0 as int);
                lemma_prefix_count(s, i as int + 1);
                let pre = s.subrange(0, i + 1);
                assert forall|k: int| 0 <= k < pre.len() implies #[trigger] bin_ok(pre[k]) by {
                    assert(bin_ok(s[k]));
                }
                lemma_sum_bounds(pre);
            }
            sum = sum + items[i].0;
            i = i + 1;
        }
        proof {
            assert(s.subrange(0, n as int) =~= s);
            lemma_sum_bounds(s);
        }
        Some(Ratio { num: sum, den: self.total })
    }

    /// The value of the first bin, in ascending order, up to which a
    /// fraction `q` of the samples lies; `None` before the first sample.
    pub fn quantile(&self, q: Ratio) -> (r: Option<Ratio>)
        requires
            self@.wf(),
            q.den >= 1,
            0 <= q.num <= q.den,
        ensures
            r == quantile_of(self@, q),
            r is Some == (self@.total > 0),
            r matches Some(x) ==> x.in_range(),
    {
        let items = self.bins.to_vec();
        let n = items.len();
        let ghost s = items@;
        let ghost m = self@;
        let mut cum: u64 = 0;
        let mut i: usize = 0;
        while i < n
            invariant
                n == s.len(),
                items@ == s,
                s == m.bins,
                m == self@,
                m.wf(),
                q.den >= 1,
                0 <= q.num <= q.den,
                i <= n,
                cum == count_of(s.subrange(0, i as int)),
                forall|j: int| 0 <= j < i ==> !#[trigger] reaches(m, q, j),
            decreases n - i,
        {
            proof {
                lemma_prefix_step(s, i as int, |b: (i128, u64)| b.1 as int);
                lemma_prefix_count(s, i as int + 1);
            }
            cum = cum + items[i].1;
            proof {
                assert(q.den * cum <= 0xFFFF_FFFF_FFFF_FFFF * 0xFFFF_FFFF_FFFF_FFFF) by (nonlinear_arith)
                    requires
                        q.den <= 0xFFFF_FFFF_FFFF_FFFF,
                        cum <= 0xFFFF_FFFF_FFFF_FFFF,
                ;
                assert(q.num * self.total <= 0xFFFF_FFFF_FFFF_FFFF * 0xFFFF_FFFF_FFFF_FFFF) by (nonlinear_arith)
                    requires
                        0 <= q.num <= 0xFFFF_FFFF_FFFF_FFFF,
                        self.total <= 0xFFFF_FFFF_FFFF_FFFF,
                ;
            }
            if (q.den as u128) * (cum as u128) >= (q.num as u128) * (self.total as u128) {
                proof {
                    assert(is_quantile_bin(m, q, i as int));
                    let c = choose|k: int| is_quantile_bin(m, q, k);
                    if c < i {
                        assert(!reaches(m, q, c));
                    } else if c > i {
                        assert(!reaches(m, q, i as int));
                    }
                    assert(bin_ok(s[i as int]));
                    lemma_bin_count(s, i as int);
                }
                return Some(Ratio { num: items[i].0, den: items[i].1 });
            }
            i = i + 1;
        }
        proof {
            if n > 0 {
                assert(s.subrange(0, n as int) =~= s);
                assert(s.subrange(0, (n - 1) + 1) =~= s);
                assert(q.num * m.total <= q.den * m.total) by (nonlinear_arith)
                    requires
                        0 <= q.num <= q.den,
                        m.total >= 0,
                ;
                assert(reaches(m, q, n - 1));
                assert(false);
            }
        }
        None
    }

    /// The fraction of samples in bins whose value is at most `x`, as the
    /// exact ratio of their count to all samples; `None` before the first
    /// sample.
    pub fn cdf(&self, x: Ratio) -> (r: Option<Ratio>)
        requires
            self@.wf(),
            x.in_range(),
        ensures
            r == cdf_of(self@, x),
    {
        let items = self.bins.to_vec();
        let n = items.len();
        let ghost s = items@;
        let mut cum: u64 = 0;
        let mut i: usize = 0;
        while i < n
            invariant
                n == s.len(),
                items@ == s,
                s == self@.bins,
                self@.wf(),
                x.in_range(),
                i <= n,
                cum == count_at_most(s.subrange(0, i as int), x),
                cum <= count_of(s.subrange(0, i as int)),
            decreases n - i,
        {
            let b = items[i];
            proof {
                lemma_prefix_step(s, i as int, |b: (i128, u64)| if at_most(b, x) { b.1 as int } else { 0 });
                lemma_prefix_step(s, i as int, |b: (i128, u64)| b.1 as int);
                lemma_prefix_count(s, i as int + 1);
                lemma_bin_count(s, i as int);
                assert(bin_ok(s[i as int]));
            }
            if value_at_most(b, x) {
                cum = cum + b.1;
            }
            i = i + 1;
        }
        proof {
            assert(s.subrange(0, n as int) =~= s);
        }
        if self.total == 0 {
            None
        } else {
            Some(Ratio { num: cum as i128, den: self.total })
        }
    }
}

/// Whether the bin's value is at most `x`.
fn value_at_most(b: (i128, u64), x: Ratio) -> (r: bool)
    requires
        bin_ok(b),
        x.in_range(),
    ensures
        r == at_most(b, x),
{
    let (qb, rb) = floor_form(b.0, b.1);
    let (qx, rx) = floor_form(x.num, x.den);
    proof {
        lemma_mixed_order(
            qx as int - shift(),
            rx as int,
            x.den as int,
            qb as int - shift(),
            rb as int,
            b.1 as int,
        );
        assert(rb * x.den < 0x1_0000_0000_0000_0000 * 0x1_0000_0000_0000_0000) by (nonlinear_arith)
            requires
                rb < b.1 <= 0xFFFF_FFFF_FFFF_FFFF,
                x.den <= 0xFFFF_FFFF_FFFF_FFFF,
        ;
        assert(rx * b.1 < 0x1_0000_0000_0000_0000 * 0x1_0000_0000_0000_0000) by (nonlinear_arith)
            requires
                rx < x.den <= 0xFFFF_FFFF_FFFF_FFFF,
                b.1 <= 0xFFFF_FFFF_FFFF_FFFF,
        ;
    }
    qb < qx || (qb == qx && rb * (x.den as u128) <= rx * (b.1 as u128))
}

} // verus!
