use vstd::prelude::*;
use crate::histogram::{
    HistogramModel, MAX_SAMPLES, MIN_BINS, at_most, bin_ratio, cdf_of, count_at_most, higher, lower,
};
use crate::model::{
    ascending, bin_ok, count_of, equals, insert_pos, lemma_frac_lt_le, lemma_insert_pos_exists,
    value_lt, with_sample,
};
use crate::ratio::Ratio;

verus! {

/// Adding a sample keeps the invariant: at most `max_bins` bins, strictly
/// ascending by value, whose counts add up to the number of samples, and
/// whose values lie between the smallest and the largest sample.
pub proof fn lemma_step_wf(m: HistogramModel, v: i64)
    requires
        m.wf(),
        m.total < MAX_SAMPLES,
    ensures
        m.step(v).wf(),
        m.step(v).total == m.total + 1,
{
    crate::model::lemma_with_sample_ok(m.bins, v);
    m.lemma_step_within(v);
    let t = with_sample(m.bins, v as int);
    if t.len() > m.max_bins {
        let i = crate::model::lemma_merge_index_exists(t);
        crate::model::lemma_merged_ok(t, i);
    }
}

/// However many samples are added, up to the limit, every state keeps the
/// invariant, and the total is the number of samples.
pub proof fn lemma_run_wf(capacity: nat, vs: Seq<i64>)
    requires
        capacity <= usize::MAX,
        vs.len() <= MAX_SAMPLES,
    ensures
        HistogramModel::empty(capacity).run(vs).wf(),
        HistogramModel::empty(capacity).run(vs).total == vs.len(),
    decreases vs.len(),
{
    let h = HistogramModel::empty(capacity);
    if vs.len() == 0 {
        assert(h.bins.len() == 0);
        assert(count_of(h.bins) == 0);
    } else {
        lemma_run_wf(capacity, vs.drop_last());
        lemma_step_wf(h.run(vs.drop_last()), vs.last());
    }
}

/// After one or more samples, `min` is the smallest sample added and `max`
/// the largest, however the bins were merged.
pub proof fn lemma_min_max_exact(capacity: nat, vs: Seq<i64>)
    requires
        vs.len() > 0,
    ensures
        HistogramModel::empty(capacity).run(vs).min matches Some(lo) && (forall|i: int|
            0 <= i < vs.len() ==> lo <= #[trigger] vs[i]) && (exists|i: int| 0 <= i < vs.len() && vs[i] == lo),
        HistogramModel::empty(capacity).run(vs).max matches Some(hi) && (forall|i: int|
            0 <= i < vs.len() ==> #[trigger] vs[i] <= hi) && (exists|i: int| 0 <= i < vs.len() && vs[i] == hi),
    decreases vs.len(),
{
    let h = HistogramModel::empty(capacity);
    let init = vs.drop_last();
    let v = vs.last();
    if init.len() == 0 {
        assert(h.run(init) == h);
        assert(vs[0] == v);
    } else {
        lemma_min_max_exact(capacity, init);
        let lo = h.run(init).min->0;
        let hi = h.run(init).max->0;
        let wlo = choose|i: int| 0 <= i < init.len() && init[i] == lo;
        let whi = choose|i: int| 0 <= i < init.len() && init[i] == hi;
        assert(vs[wlo] == lo);
        assert(vs[whi] == hi);
        assert(vs[vs.len() - 1] == v);
        assert forall|i: int| 0 <= i < vs.len() implies lower(Some(lo), v)->0 <= #[trigger] vs[i] by {
            if i < init.len() {
                assert(init[i] == vs[i]);
            }
        }
        assert forall|i: int| 0 <= i < vs.len() implies #[trigger] vs[i] <= higher(Some(hi), v)->0 by {
            if i < init.len() {
                assert(init[i] == vs[i]);
            }
        }
    }
}

/// Adding the same sample `n` times to a new histogram leaves one bin that
/// counts it `n` times.
pub proof fn lemma_repeated_sample(capacity: nat, v: i64, n: nat)
    requires
        1 <= n <= MAX_SAMPLES,
    ensures
        HistogramModel::empty(capacity).run(Seq::new(n, |i: int| v)).bins =~= seq![((v * n) as i128, n as u64)],
        HistogramModel::empty(capacity).run(Seq::new(n, |i: int| v)).total == n,
    decreases n,
{
    let h = HistogramModel::empty(capacity);
    let vs = Seq::new(n, |i: int| v);
    let init = Seq::new((n - 1) as nat, |i: int| v);
    assert(vs.drop_last() =~= init);
    let prev = h.run(init);
    assert(h.run(vs) == prev.step(v));
    assert(prev.max_bins == h.max_bins) by {
        lemma_run_keeps_capacity(h, init);
    }
    if n == 1 {
        assert(prev == h);
        let p = lemma_insert_pos_exists(prev.bins, v as int);
        assert(p == 0);
        assert(with_sample(prev.bins, v as int) =~= seq![(v as i128, 1u64)]);
        assert(v * n == v);
    } else {
        lemma_repeated_sample(capacity, v, (n - 1) as nat);
        let b = ((v * (n - 1)) as i128, (n - 1) as u64);
        assert(prev.bins =~= seq![b]);
        assert(-0x8000_0000_0000_0000 * 0xFFFF_FFFF_FFFF_FFFF <= v * (n - 1) <= 0x7FFF_FFFF_FFFF_FFFF
            * 0xFFFF_FFFF_FFFF_FFFF) by (nonlinear_arith)
            requires
                -0x8000_0000_0000_0000 <= v <= 0x7FFF_FFFF_FFFF_FFFF,
                0 <= n - 1 <= 0xFFFF_FFFF_FFFF_FFFF,
        ;
        assert(-0x8000_0000_0000_0000 * 0xFFFF_FFFF_FFFF_FFFF <= v * n <= 0x7FFF_FFFF_FFFF_FFFF
            * 0xFFFF_FFFF_FFFF_FFFF) by (nonlinear_arith)
            requires
                -0x8000_0000_0000_0000 <= v <= 0x7FFF_FFFF_FFFF_FFFF,
                0 <= n <= 0xFFFF_FFFF_FFFF_FFFF,
        ;
        assert(b.0 == v * (n - 1));
        assert(equals(b, v as int));
        assert(insert_pos(prev.bins, v as int, 0));
        let p = lemma_insert_pos_exists(prev.bins, v as int);
        crate::model::lemma_insert_pos_unique(prev.bins, v as int, p, 0);
        assert(v * (n - 1) + v == v * n) by (nonlinear_arith);
        assert(with_sample(prev.bins, v as int) =~= seq![((v * n) as i128, n as u64)]);
    }
}

proof fn lemma_run_keeps_capacity(h: HistogramModel, vs: Seq<i64>)
    ensures
        h.run(vs).max_bins == h.max_bins,
    decreases vs.len(),
{
    if vs.len() > 0 {
        lemma_run_keeps_capacity(h, vs.drop_last());
    }
}

/// Every bin's value is at most the last bin's.
proof fn lemma_below_last(s: Seq<(i128, u64)>, i: int)
    requires
        ascending(s),
        forall|k: int| 0 <= k < s.len() ==> #[trigger] bin_ok(s[k]),
        0 <= i < s.len(),
    ensures
        at_most(s[i], bin_ratio(s.last())),
    decreases s.len() - i,
{
    let l = s.last();
    if i < s.len() - 1 {
        lemma_below_last(s, i + 1);
        assert(value_lt(s[(i + 1) - 1], s[i + 1]));
        assert(bin_ok(s[i]) && bin_ok(s[i + 1]) && bin_ok(s[s.len() - 1]));
        lemma_frac_lt_le(
            s[i].0 as int,
            s[i].1 as int,
            s[i + 1].0 as int,
            s[i + 1].1 as int,
            l.0 as int,
            l.1 as int,
        );
    }
}

proof fn lemma_count_all_at_most(s: Seq<(i128, u64)>, x: Ratio)
    requires
        forall|k: int| 0 <= k < s.len() ==> #[trigger] at_most(s[k], x),
    ensures
        count_at_most(s, x) == count_of(s),
    decreases s.len(),
{
    if s.len() > 0 {
        assert(at_most(s[s.len() - 1], x));
        let t = s.drop_last();
        assert forall|k: int| 0 <= k < t.len() implies #[trigger] at_most(t[k], x) by {
            assert(at_most(s[k], x));
        }
        lemma_count_all_at_most(t, x);
    }
}

/// Once there is a sample, the cumulative distribution at the largest bin
/// value is one.
pub proof fn lemma_cdf_at_last_bin(m: HistogramModel)
    requires
        m.wf(),
        m.total > 0,
    ensures
        m.bins.len() > 0,
        bin_ratio(m.bins.last()).in_range(),
        cdf_of(m, bin_ratio(m.bins.last())) == Some(Ratio { num: m.total as i128, den: m.total as u64 }),
{
    if m.bins.len() == 0 {
        assert(count_of(m.bins) == 0);
    }
    let s = m.bins;
    let x = bin_ratio(s.last());
    assert(bin_ok(s[s.len() - 1]));
    crate::model::lemma_bin_count(s, s.len() - 1);
    assert forall|k: int| 0 <= k < s.len() implies #[trigger] at_most(s[k], x) by {
        lemma_below_last(s, k);
    }
    lemma_count_all_at_most(s, x);
}

/// A capacity below ten gives the same histogram as ten, before and after
/// any samples.
pub proof fn lemma_small_capacity(capacity: nat, vs: Seq<i64>)
    requires
        capacity < MIN_BINS,
    ensures
        HistogramModel::empty(capacity) == HistogramModel::empty(MIN_BINS as nat),
        HistogramModel::empty(capacity).run(vs) == HistogramModel::empty(MIN_BINS as nat).run(vs),
{
}

} // verus!
