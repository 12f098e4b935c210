use vstd::prelude::*;
use crate::bins::spliced;

verus! {

/// `n1 / d1 < n2 / d2` for positive denominators.
pub open spec fn frac_lt(n1: int, d1: int, n2: int, d2: int) -> bool {
    n1 * d2 < n2 * d1
}

pub proof fn lemma_cancel_lt(x: int, y: int, d: int)
    requires
        d > 0,
        x * d < y * d,
    ensures
        x < y,
{
    assert(x < y) by (nonlinear_arith)
        requires
            d > 0,
            x * d < y * d,
    ;
}

/// `<` followed by `<=` on fractions with positive denominators gives `<`.
pub proof fn lemma_frac_lt_le(n1: int, d1: int, n2: int, d2: int, n3: int, d3: int)
    requires
        d1 > 0,
        d2 > 0,
        d3 > 0,
        n1 * d2 < n2 * d1,
        n2 * d3 <= n3 * d2,
    ensures
        n1 * d3 < n3 * d1,
{
    assert(n1 * d2 * d3 < n2 * d1 * d3) by (nonlinear_arith)
        requires
            n1 * d2 < n2 * d1,
            d3 > 0,
    ;
    assert(n2 * d3 * d1 <= n3 * d2 * d1) by (nonlinear_arith)
        requires
            n2 * d3 <= n3 * d2,
            d1 > 0,
    ;
    assert((n1 * d3) * d2 < (n3 * d1) * d2) by (nonlinear_arith)
        requires
            n1 * d2 * d3 < n2 * d1 * d3,
            n2 * d3 * d1 <= n3 * d2 * d1,
    ;
    lemma_cancel_lt(n1 * d3, n3 * d1, d2);
}

/// A bin is `(sum, count)`; its value is `sum / count`.
pub open spec fn value_lt(a: (i128, u64), b: (i128, u64)) -> bool {
    frac_lt(a.0 as int, a.1 as int, b.0 as int, b.1 as int)
}

/// The bin's value lies below the sample `v`.
pub open spec fn below(a: (i128, u64), v: int) -> bool {
    (a.0 as int) < v * a.1
}

/// The bin's value is the sample `v`.
pub open spec fn equals(a: (i128, u64), v: int) -> bool {
    a.0 as int == v * a.1
}

/// At least one sample, and a value within the range of the samples.
pub open spec fn bin_ok(a: (i128, u64)) -> bool {
    &&& a.1 >= 1
    &&& i64::MIN * a.1 <= a.0 <= i64::MAX * a.1
}

/// Strictly ascending by value.
pub open spec fn ascending(s: Seq<(i128, u64)>) -> bool {
    forall|i: int| 1 <= i < s.len() ==> #[trigger] value_lt(s[i - 1], s[i])
}

pub open spec fn all_bins_ok(s: Seq<(i128, u64)>) -> bool {
    forall|i: int| 0 <= i < s.len() ==> #[trigger] bin_ok(s[i])
}

/// The sum of `f` over the bins.
pub open spec fn seq_sum(s: Seq<(i128, u64)>, f: spec_fn((i128, u64)) -> int) -> int
    decreases s.len(),
{
    if s.len() == 0 {
        0
    } else {
        seq_sum(s.drop_last(), f) + f(s.last())
    }
}

/// How many samples the bins hold.
pub open spec fn count_of(s: Seq<(i128, u64)>) -> int {
    seq_sum(s, |b: (i128, u64)| b.1 as int)
}

/// The sum of all samples the bins hold.
pub open spec fn sum_of(s: Seq<(i128, u64)>) -> int {
    seq_sum(s, |b: (i128, u64)| b.0 as int)
}

pub proof fn lemma_seq_sum_concat(a: Seq<(i128, u64)>, b: Seq<(i128, u64)>, f: spec_fn((i128, u64)) -> int)
    ensures
        seq_sum(a + b, f) == seq_sum(a, f) + seq_sum(b, f),
    decreases b.len(),
{
    if b.len() == 0 {
        assert(a + b =~= a);
    } else {
        assert((a + b).drop_last() =~= a + b.drop_last());
        lemma_seq_sum_concat(a, b.drop_last(), f);
    }
}

pub proof fn lemma_seq_sum_single(x: (i128, u64), f: spec_fn((i128, u64)) -> int)
    ensures
        seq_sum(seq![x], f) == f(x),
{
    assert(seq![x].drop_last() =~= Seq::<(i128, u64)>::empty());
    assert(seq_sum(seq![x].drop_last(), f) == 0);
    assert(seq![x].last() == x);
}

pub proof fn lemma_count_nonneg(s: Seq<(i128, u64)>)
    ensures
        count_of(s) >= 0,
    decreases s.len(),
{
    if s.len() > 0 {
        lemma_count_nonneg(s.drop_last());
    }
}

/// The sum of the samples lies within the range of the samples times their number.
pub proof fn lemma_sum_bounds(s: Seq<(i128, u64)>)
    requires
        all_bins_ok(s),
    ensures
        i64::MIN * count_of(s) <= sum_of(s) <= i64::MAX * count_of(s),
    decreases s.len(),
{
    if s.len() > 0 {
        assert(bin_ok(s[s.len() - 1]));
        lemma_sum_bounds(s.drop_last());
    }
}

/// `spliced` changes a sum by what it takes out and puts in.
pub proof fn lemma_seq_sum_spliced(
    s: Seq<(i128, u64)>,
    start: int,
    remove: int,
    item: (i128, u64),
    f: spec_fn((i128, u64)) -> int,
)
    requires
        0 <= start,
        0 <= remove,
        start + remove <= s.len(),
    ensures
        seq_sum(s, f) == seq_sum(s.subrange(0, start), f) + seq_sum(s.subrange(start, start + remove), f)
            + seq_sum(s.subrange(start + remove, s.len() as int), f),
        seq_sum(spliced(s, start, remove, item), f) == seq_sum(s.subrange(0, start), f) + f(item)
            + seq_sum(s.subrange(start + remove, s.len() as int), f),
{
    let pre = s.subrange(0, start);
    let mid = s.subrange(start, start + remove);
    let post = s.subrange(start + remove, s.len() as int);
    assert(s =~= pre + mid + post);
    lemma_seq_sum_concat(pre + mid, post, f);
    lemma_seq_sum_concat(pre, mid, f);
    assert(pre.push(item) =~= pre + seq![item]);
    lemma_seq_sum_concat(pre.push(item), post, f);
    lemma_seq_sum_concat(pre, seq![item], f);
    lemma_seq_sum_single(item, f);
}

/// Two neighbouring bins hold no more samples than all bins together.
pub proof fn lemma_pair_count(s: Seq<(i128, u64)>, i: int)
    requires
        1 <= i < s.len(),
    ensures
        s[i - 1].1 + s[i].1 <= count_of(s),
{
    let f = |b: (i128, u64)| b.1 as int;
    lemma_seq_sum_spliced(s, i - 1, 2, s[i], f);
    let mid = s.subrange(i - 1, i + 1);
    assert(mid =~= seq![s[i - 1]] + seq![s[i]]);
    lemma_seq_sum_concat(seq![s[i - 1]], seq![s[i]], f);
    lemma_seq_sum_single(s[i - 1], f);
    lemma_seq_sum_single(s[i], f);
    lemma_count_nonneg(s.subrange(0, i - 1));
    lemma_count_nonneg(s.subrange(i + 1, s.len() as int));
}

/// One bin holds no more samples than all bins together.
pub proof fn lemma_bin_count(s: Seq<(i128, u64)>, i: int)
    requires
        0 <= i < s.len(),
    ensures
        s[i].1 <= count_of(s),
{
    let f = |b: (i128, u64)| b.1 as int;
    lemma_seq_sum_spliced(s, i, 1, s[i], f);
    assert(s.subrange(i, i + 1) =~= seq![s[i]]);
    lemma_seq_sum_single(s[i], f);
    lemma_count_nonneg(s.subrange(0, i));
    lemma_count_nonneg(s.subrange(i + 1, s.len() as int));
}

/// The bins before `p` lie below `v`, and the one at `p`, if any, does not.
pub open spec fn insert_pos(s: Seq<(i128, u64)>, v: int, p: int) -> bool {
    &&& 0 <= p <= s.len()
    &&& forall|j: int| 0 <= j < p ==> #[trigger] below(s[j], v)
    &&& p < s.len() ==> !below(s[p], v)
}

/// The bins after a sample `v` is folded in: the bin whose value is `v`
/// counts it once more, or a new bin `(v, 1)` goes in before the first bin
/// above `v`.
pub open spec fn with_sample(s: Seq<(i128, u64)>, v: int) -> Seq<(i128, u64)> {
    let p = choose|p: int| insert_pos(s, v, p);
    if p < s.len() && equals(s[p], v) {
        s.update(p, ((s[p].0 + v) as i128, (s[p].1 + 1) as u64))
    } else {
        s.insert(p, (v as i128, 1u64))
    }
}

pub proof fn lemma_insert_pos_unique(s: Seq<(i128, u64)>, v: int, p: int, q: int)
    requires
        insert_pos(s, v, p),
        insert_pos(s, v, q),
    ensures
        p == q,
{
    if p < q {
        assert(below(s[p], v));
    } else if q < p {
        assert(below(s[q], v));
    }
}

proof fn lemma_insert_pos_from(s: Seq<(i128, u64)>, v: int, k: int) -> (p: int)
    requires
        0 <= k <= s.len(),
        forall|j: int| 0 <= j < k ==> #[trigger] below(s[j], v),
    ensures
        insert_pos(s, v, p),
    decreases s.len() - k,
{
    if k == s.len() || !below(s[k], v) {
        k
    } else {
        lemma_insert_pos_from(s, v, k + 1)
    }
}

/// Every sequence of bins has a place for a new sample.
pub proof fn lemma_insert_pos_exists(s: Seq<(i128, u64)>, v: int) -> (p: int)
    ensures
        insert_pos(s, v, p),
        p == choose|p: int| insert_pos(s, v, p),
{
    let p = lemma_insert_pos_from(s, v, 0);
    let q = choose|p: int| insert_pos(s, v, p);
    lemma_insert_pos_unique(s, v, p, q);
    p
}

/// The gap between bin `i - 1` and bin `i`, as numerator and denominator.
pub open spec fn gap_num(s: Seq<(i128, u64)>, i: int) -> int {
    s[i].0 * s[i - 1].1 - s[i - 1].0 * s[i].1
}

pub open spec fn gap_den(s: Seq<(i128, u64)>, i: int) -> int {
    s[i].1 * s[i - 1].1
}

/// The gap before bin `i` is smaller than the gap before bin `j`.
pub open spec fn gap_lt(s: Seq<(i128, u64)>, i: int, j: int) -> bool {
    frac_lt(gap_num(s, i), gap_den(s, i), gap_num(s, j), gap_den(s, j))
}

/// `i` is the first index whose gap to its left neighbour is the smallest.
pub open spec fn is_merge_index(s: Seq<(i128, u64)>, i: int) -> bool {
    &&& 1 <= i < s.len()
    &&& forall|j: int| 1 <= j < i ==> #[trigger] gap_lt(s, i, j)
    &&& forall|j: int| i <= j < s.len() ==> !#[trigger] gap_lt(s, j, i)
}

pub proof fn lemma_merge_index_unique(s: Seq<(i128, u64)>, i: int, k: int)
    requires
        is_merge_index(s, i),
        is_merge_index(s, k),
    ensures
        i == k,
{
    if i < k {
        assert(gap_lt(s, k, i));
    } else if k < i {
        assert(gap_lt(s, i, k));
    }
}

/// When the gap before `k` is smaller than that before the best index so
/// far, `k` is the new best index.
pub proof fn lemma_new_best(s: Seq<(i128, u64)>, best: int, k: int)
    requires
        all_bins_ok(s),
        1 <= best < k < s.len(),
        forall|j: int| 1 <= j < best ==> #[trigger] gap_lt(s, best, j),
        forall|j: int| best <= j < k ==> !#[trigger] gap_lt(s, j, best),
        gap_lt(s, k, best),
    ensures
        forall|j: int| 1 <= j < k ==> #[trigger] gap_lt(s, k, j),
{
    assert forall|j: int| 1 <= j < k implies #[trigger] gap_lt(s, k, j) by {
        assert(bin_ok(s[j - 1]) && bin_ok(s[j]));
        assert(bin_ok(s[best - 1]) && bin_ok(s[best]));
        assert(bin_ok(s[k - 1]) && bin_ok(s[k]));
        assert(gap_den(s, j) > 0) by (nonlinear_arith)
            requires
                s[j].1 >= 1,
                s[j - 1].1 >= 1,
        ;
        assert(gap_den(s, best) > 0) by (nonlinear_arith)
            requires
                s[best].1 >= 1,
                s[best - 1].1 >= 1,
        ;
        assert(gap_den(s, k) > 0) by (nonlinear_arith)
            requires
                s[k].1 >= 1,
                s[k - 1].1 >= 1,
        ;
        if j < best {
            assert(gap_lt(s, best, j));
        } else {
            assert(!gap_lt(s, j, best));
        }
        lemma_frac_lt_le(gap_num(s, k), gap_den(s, k), gap_num(s, best), gap_den(s, best), gap_num(s, j), gap_den(s, j));
    }
}

proof fn lemma_merge_index_from(s: Seq<(i128, u64)>, best: int, k: int) -> (i: int)
    requires
        all_bins_ok(s),
        1 <= best < k <= s.len(),
        forall|j: int| 1 <= j < best ==> #[trigger] gap_lt(s, best, j),
        forall|j: int| best <= j < k ==> !#[trigger] gap_lt(s, j, best),
    ensures
        is_merge_index(s, i),
    decreases s.len() - k,
{
    if k == s.len() {
        best
    } else if gap_lt(s, k, best) {
        lemma_new_best(s, best, k);
        lemma_merge_index_from(s, k, k + 1)
    } else {
        lemma_merge_index_from(s, best, k + 1)
    }
}

/// Two or more bins have a pair to merge.
pub proof fn lemma_merge_index_exists(s: Seq<(i128, u64)>) -> (i: int)
    requires
        all_bins_ok(s),
        s.len() >= 2,
    ensures
        is_merge_index(s, i),
        i == choose|i: int| is_merge_index(s, i),
{
    let i = lemma_merge_index_from(s, 1, 2);
    let c = choose|i: int| is_merge_index(s, i);
    lemma_merge_index_unique(s, i, c);
    i
}

/// Bins `i - 1` and `i` made one: the sums and the counts add up.
pub open spec fn merged(s: Seq<(i128, u64)>, i: int) -> Seq<(i128, u64)> {
    spliced(s, i - 1, 2, ((s[i - 1].0 + s[i].0) as i128, (s[i - 1].1 + s[i].1) as u64))
}

/// The bins kept within `max_bins`: above it, the two neighbours closest in
/// value are merged.
pub open spec fn within_budget(s: Seq<(i128, u64)>, max_bins: int) -> Seq<(i128, u64)> {
    if s.len() <= max_bins {
        s
    } else {
        merged(s, choose|i: int| is_merge_index(s, i))
    }
}

/// The mediant of two ascending bins lies strictly between them.
pub proof fn lemma_mediant(a: (i128, u64), b: (i128, u64))
    requires
        a.1 >= 1,
        b.1 >= 1,
        value_lt(a, b),
    ensures
        frac_lt(a.0 as int, a.1 as int, a.0 + b.0, a.1 + b.1),
        frac_lt(a.0 + b.0, a.1 + b.1, b.0 as int, b.1 as int),
{
    let (a0, a1, b0, b1) = (a.0 as int, a.1 as int, b.0 as int, b.1 as int);
    assert(a0 * (a1 + b1) < (a0 + b0) * a1) by (nonlinear_arith)
        requires
            a0 * b1 < b0 * a1,
    ;
    assert((a0 + b0) * b1 < b0 * (a1 + b1)) by (nonlinear_arith)
        requires
            a0 * b1 < b0 * a1,
    ;
}

/// Merging two neighbours keeps the bins ascending and in range, and keeps
/// both the number of samples and their sum.
pub proof fn lemma_merged_ok(s: Seq<(i128, u64)>, i: int)
    requires
        ascending(s),
        all_bins_ok(s),
        count_of(s) <= u64::MAX,
        1 <= i < s.len(),
    ensures
        merged(s, i).len() == s.len() - 1,
        ascending(merged(s, i)),
        all_bins_ok(merged(s, i)),
        count_of(merged(s, i)) == count_of(s),
        sum_of(merged(s, i)) == sum_of(s),
{
    let a = s[i - 1];
    let b = s[i];
    lemma_pair_count(s, i);
    assert(bin_ok(a));
    assert(bin_ok(b));
    let m = ((a.0 + b.0) as i128, (a.1 + b.1) as u64);
    assert(m.0 == a.0 + b.0);
    assert(m.1 == a.1 + b.1);
    let t = merged(s, i);
    assert(value_lt(a, b));
    lemma_mediant(a, b);
    assert forall|k: int| 1 <= k < t.len() implies #[trigger] value_lt(t[k - 1], t[k]) by {
        if k < i - 1 {
            assert(value_lt(s[k - 1], s[k]));
        } else if k == i - 1 {
            let z = s[i - 2];
            assert(value_lt(s[(i - 1) - 1], s[i - 1]));
            assert(bin_ok(z));
            assert(t[k - 1] == z);
            lemma_frac_lt_le(z.0 as int, z.1 as int, a.0 as int, a.1 as int, m.0 as int, m.1 as int);
        } else if k == i {
            let z = s[i + 1];
            assert(value_lt(s[(i + 1) - 1], s[i + 1]));
            assert(bin_ok(z));
            assert(t[k] == z);
            lemma_frac_lt_le(m.0 as int, m.1 as int, b.0 as int, b.1 as int, z.0 as int, z.1 as int);
        } else {
            assert(value_lt(s[(k + 1) - 1], s[k + 1]));
        }
    }
    assert forall|k: int| 0 <= k < t.len() implies #[trigger] bin_ok(t[k]) by {
        if k < i - 1 {
            assert(bin_ok(s[k]));
        } else if k > i - 1 {
            assert(bin_ok(s[k + 1]));
        }
    }
    let fc = |x: (i128, u64)| x.1 as int;
    let fs = |x: (i128, u64)| x.0 as int;
    lemma_seq_sum_spliced(s, i - 1, 2, m, fc);
    lemma_seq_sum_spliced(s, i - 1, 2, m, fs);
    let mid = s.subrange(i - 1, i + 1);
    assert(mid =~= seq![a] + seq![b]);
    lemma_seq_sum_concat(seq![a], seq![b], fc);
    lemma_seq_sum_concat(seq![a], seq![b], fs);
    lemma_seq_sum_single(a, fc);
    lemma_seq_sum_single(b, fc);
    lemma_seq_sum_single(a, fs);
    lemma_seq_sum_single(b, fs);
}

/// A bin whose value is `v` compares with others as `v` does.
pub proof fn lemma_equals_order(a: (i128, u64), b: (i128, u64), v: int)
    requires
        equals(b, v),
        b.1 >= 1,
    ensures
        value_lt(a, b) == below(a, v),
        value_lt(b, a) == (v * a.1 < a.0),
{
    let (a0, a1, b0, b1) = (a.0 as int, a.1 as int, b.0 as int, b.1 as int);
    assert((a0 * b1 < b0 * a1) == (a0 < v * a1)) by (nonlinear_arith)
        requires
            b0 == v * b1,
            b1 >= 1,
    ;
    assert((b0 * a1 < a0 * b1) == (v * a1 < a0)) by (nonlinear_arith)
        requires
            b0 == v * b1,
            b1 >= 1,
    ;
}

/// Folding a sample in keeps the bins ascending and in range, and adds one
/// to their count and the sample to their sum.
pub proof fn lemma_with_sample_ok(s: Seq<(i128, u64)>, v: i64)
    requires
        ascending(s),
        all_bins_ok(s),
        count_of(s) < u64::MAX,
    ensures
        ascending(with_sample(s, v as int)),
        all_bins_ok(with_sample(s, v as int)),
        count_of(with_sample(s, v as int)) == count_of(s) + 1,
        sum_of(with_sample(s, v as int)) == sum_of(s) + v,
        with_sample(s, v as int).len() <= s.len() + 1,
        with_sample(s, v as int).len() == s.len() ==> equals(with_sample(s, v as int)[choose|p: int| insert_pos(s, v as int, p)], v as int),
{
    let vi = v as int;
    let p = lemma_insert_pos_exists(s, vi);
    let t = with_sample(s, vi);
    let fc = |x: (i128, u64)| x.1 as int;
    let fs = |x: (i128, u64)| x.0 as int;
    if p < s.len() && equals(s[p], vi) {
        let b = s[p];
        let nb = ((b.0 + vi) as i128, (b.1 + 1) as u64);
        assert(bin_ok(b));
        assert(b.1 <= count_of(s)) by {
            lemma_seq_sum_spliced(s, p, 1, b, fc);
            assert(s.subrange(p, p + 1) =~= seq![b]);
            lemma_seq_sum_single(b, fc);
            lemma_count_nonneg(s.subrange(0, p));
            lemma_count_nonneg(s.subrange(p + 1, s.len() as int));
        }
        assert(nb.0 == b.0 + vi);
        assert(nb.1 == b.1 + 1);
        assert(b.0 + vi == vi * (b.1 + 1)) by (nonlinear_arith)
            requires
                b.0 == vi * b.1,
        ;
        assert(equals(nb, vi));
        assert(t == s.update(p, nb));
        assert(t =~= spliced(s, p, 1, nb));
        assert forall|k: int| 1 <= k < t.len() implies #[trigger] value_lt(t[k - 1], t[k]) by {
            assert(value_lt(s[k - 1], s[k]));
            if k == p {
                lemma_equals_order(s[k - 1], nb, vi);
                assert(below(s[k - 1], vi));
            } else if k == p + 1 {
                lemma_equals_order(s[k], nb, vi);
                lemma_equals_order(s[k], b, vi);
            }
        }
        assert forall|k: int| 0 <= k < t.len() implies #[trigger] bin_ok(t[k]) by {
            assert(bin_ok(s[k]));
        }
        lemma_seq_sum_spliced(s, p, 1, nb, fc);
        lemma_seq_sum_spliced(s, p, 1, nb, fs);
        assert(s.subrange(p, p + 1) =~= seq![b]);
        lemma_seq_sum_single(b, fc);
        lemma_seq_sum_single(b, fs);
    } else {
        let nb = (v as i128, 1u64);
        assert(t == s.insert(p, nb));
        assert(t =~= spliced(s, p, 0, nb));
        assert forall|k: int| 1 <= k < t.len() implies #[trigger] value_lt(t[k - 1], t[k]) by {
            if k < p {
                assert(value_lt(s[k - 1], s[k]));
            } else if k == p {
                assert(below(s[k - 1], vi));
            } else if k == p + 1 {
                assert(!below(s[p], vi));
                assert(!equals(s[p], vi));
            } else {
                assert(value_lt(s[(k - 1) - 1], s[k - 1]));
            }
        }
        assert forall|k: int| 0 <= k < t.len() implies #[trigger] bin_ok(t[k]) by {
            if k < p {
                assert(bin_ok(s[k]));
            } else if k > p {
                assert(bin_ok(s[k - 1]));
            }
        }
        lemma_seq_sum_spliced(s, p, 0, nb, fc);
        lemma_seq_sum_spliced(s, p, 0, nb, fs);
        assert(s.subrange(p, p) =~= Seq::<(i128, u64)>::empty());
    }
}

/// Adding the next bin's count to a prefix.
pub proof fn lemma_prefix_step(s: Seq<(i128, u64)>, i: int, f: spec_fn((i128, u64)) -> int)
    requires
        0 <= i < s.len(),
    ensures
        seq_sum(s.subrange(0, i + 1), f) == seq_sum(s.subrange(0, i), f) + f(s[i]),
{
    assert(s.subrange(0, i + 1).drop_last() =~= s.subrange(0, i));
}

/// A prefix holds no more samples than all bins.
pub proof fn lemma_prefix_count(s: Seq<(i128, u64)>, i: int)
    requires
        0 <= i <= s.len(),
    ensures
        0 <= count_of(s.subrange(0, i)) <= count_of(s),
{
    let f = |b: (i128, u64)| b.1 as int;
    assert(s =~= s.subrange(0, i) + s.subrange(i, s.len() as int));
    lemma_seq_sum_concat(s.subrange(0, i), s.subrange(i, s.len() as int), f);
    lemma_count_nonneg(s.subrange(0, i));
    lemma_count_nonneg(s.subrange(i, s.len() as int));
}

/// Every bin's value lies between `lo` and `hi`.
pub open spec fn within(s: Seq<(i128, u64)>, lo: int, hi: int) -> bool {
    forall|i: int| 0 <= i < s.len() ==> lo * #[trigger] s[i].1 <= s[i].0 <= hi * s[i].1
}

/// Each bin holds at least one sample.
pub proof fn lemma_count_at_least_len(s: Seq<(i128, u64)>)
    requires
        all_bins_ok(s),
    ensures
        count_of(s) >= s.len(),
    decreases s.len(),
{
    if s.len() > 0 {
        assert(bin_ok(s[s.len() - 1]));
        let t = s.drop_last();
        assert forall|k: int| 0 <= k < t.len() implies #[trigger] bin_ok(t[k]) by {
            assert(bin_ok(s[k]));
        }
        lemma_count_at_least_len(t);
    }
}

pub proof fn lemma_within_widen(s: Seq<(i128, u64)>, lo: int, hi: int, lo2: int, hi2: int)
    requires
        within(s, lo, hi),
        lo2 <= lo,
        hi <= hi2,
    ensures
        within(s, lo2, hi2),
{
    assert forall|i: int| 0 <= i < s.len() implies lo2 * #[trigger] s[i].1 <= s[i].0 <= hi2 * s[i].1 by {
        let c = s[i].1 as int;
        assert(lo * c <= s[i].0 <= hi * c);
        assert(lo2 * c <= lo * c && hi * c <= hi2 * c) by (nonlinear_arith)
            requires
                lo2 <= lo,
                hi <= hi2,
                c >= 0,
        ;
    }
}

/// A sample within the bounds keeps the bins within them.
pub proof fn lemma_within_with_sample(s: Seq<(i128, u64)>, v: i64, lo: int, hi: int)
    requires
        within(s, lo, hi),
        lo <= v <= hi,
        ascending(s),
        all_bins_ok(s),
        count_of(s) < u64::MAX,
    ensures
        within(with_sample(s, v as int), lo, hi),
{
    let vi = v as int;
    let p = lemma_insert_pos_exists(s, vi);
    let t = with_sample(s, vi);
    if p < s.len() && equals(s[p], vi) {
        let b = s[p];
        lemma_bin_count(s, p);
        assert(bin_ok(b));
        assert(b.0 + vi == vi * (b.1 + 1)) by (nonlinear_arith)
            requires
                b.0 == vi * b.1,
        ;
        assert(lo * (b.1 + 1) <= vi * (b.1 + 1) <= hi * (b.1 + 1)) by (nonlinear_arith)
            requires
                lo <= vi <= hi,
                b.1 >= 0,
        ;
        assert forall|i: int| 0 <= i < t.len() implies lo * #[trigger] t[i].1 <= t[i].0 <= hi * t[i].1 by {
            if i != p {
                assert(t[i] == s[i]);
            }
        }
    } else {
        assert forall|i: int| 0 <= i < t.len() implies lo * #[trigger] t[i].1 <= t[i].0 <= hi * t[i].1 by {
            if i < p {
                assert(t[i] == s[i]);
            } else if i > p {
                assert(t[i] == s[i - 1]);
            }
        }
    }
}

/// Merging two neighbours keeps the bins within the bounds.
pub proof fn lemma_within_merged(s: Seq<(i128, u64)>, i: int, lo: int, hi: int)
    requires
        within(s, lo, hi),
        all_bins_ok(s),
        count_of(s) <= u64::MAX,
        1 <= i < s.len(),
    ensures
        within(merged(s, i), lo, hi),
{
    let a = s[i - 1];
    let b = s[i];
    lemma_pair_count(s, i);
    assert(bin_ok(a) && bin_ok(b));
    assert(lo * a.1 <= a.0 <= hi * a.1);
    assert(lo * b.1 <= b.0 <= hi * b.1);
    assert(lo * (a.1 + b.1) <= a.0 + b.0 <= hi * (a.1 + b.1)) by (nonlinear_arith)
        requires
            lo * a.1 <= a.0 <= hi * a.1,
            lo * b.1 <= b.0 <= hi * b.1,
    ;
    let t = merged(s, i);
    assert forall|k: int| 0 <= k < t.len() implies lo * #[trigger] t[k].1 <= t[k].0 <= hi * t[k].1 by {
        if k < i - 1 {
            assert(t[k] == s[k]);
        } else if k > i - 1 {
            assert(t[k] == s[k + 1]);
        }
    }
}

} // verus!
