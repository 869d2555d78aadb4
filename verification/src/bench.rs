use vstd::prelude::*;

verus! {

use vstd::seq_lib::lemma_multiset_commutative;
use vstd::seq_lib::group_to_multiset_ensures;
use vstd::multiset::group_multiset_axioms;

/// What a claim yields for a given counter value: the next iteration
/// index while any is left, else nothing.
pub open spec fn claim_result(next: int, total: int) -> Option<int> {
    if next < total {
        Some(next)
    } else {
        None
    }
}

/// The counter value after a claim.
pub open spec fn claim_next(next: int, total: int) -> int {
    if next < total {
        next + 1
    } else {
        next
    }
}

/// The counter value after `k` claims from a fresh counter.
pub open spec fn counter_after(k: nat, total: int) -> int
    decreases k,
{
    if k == 0 {
        0
    } else {
        claim_next(counter_after((k - 1) as nat, total), total)
    }
}

/// Hands out each iteration index exactly once. Workers share one
/// counter behind a lock; each claim yields one index until the total
/// is reached.
pub struct IterationCounter {
    next: usize,
    total: usize,
}

impl IterationCounter {
    pub closed spec fn next_i(&self) -> int {
        self.next as int
    }

    pub closed spec fn total_i(&self) -> int {
        self.total as int
    }

    pub fn new(total: usize) -> (r: Self)
        ensures
            r.next_i() == 0,
            r.total_i() == total,
    {
        IterationCounter { next: 0, total }
    }

    /// Claims one iteration index, if any is left.
    pub fn claim(&mut self) -> (r: Option<usize>)
        ensures
            final(self).total_i() == old(self).total_i(),
            final(self).next_i() == claim_next(old(self).next_i(), old(self).total_i()),
            r matches Some(i) ==> claim_result(old(self).next_i(), old(self).total_i()) == Some(
                i as int,
            ),
            r is None <==> claim_result(old(self).next_i(), old(self).total_i()) is None,
    {
        if self.next < self.total {
            let i = self.next;
            self.next = self.next + 1;
            Some(i)
        } else {
            None
        }
    }
}

/// However many claims are made and however they interleave, the
/// claims that yield an index yield exactly the indexes below the
/// total, in order, each exactly once; every later claim yields
/// nothing.
pub proof fn lemma_claims_exact(k: nat, total: int)
    requires
        total >= 0,
    ensures
        counter_after(k, total) == if k <= total {
            k as int
        } else {
            total
        },
        claim_result(counter_after(k, total), total) is Some <==> k < total,
        k < total ==> claim_result(counter_after(k, total), total) == Some(k as int),
    decreases k,
{
    if k > 0 {
        lemma_claims_exact((k - 1) as nat, total);
    }
}

/// The sum of a list of durations.
pub open spec fn sum_ns(s: Seq<u64>) -> int
    decreases s.len(),
{
    if s.len() == 0 {
        0
    } else {
        sum_ns(s.drop_last()) + s.last()
    }
}

proof fn lemma_sum_bound(s: Seq<u64>)
    ensures
        0 <= sum_ns(s) <= s.len() * u64::MAX,
    decreases s.len(),
{
    if s.len() > 0 {
        lemma_sum_bound(s.drop_last());
        assert((s.len() - 1) * u64::MAX + u64::MAX == s.len() * u64::MAX) by (nonlinear_arith);
    }
}

/// The mean of the recorded durations, in whole nanoseconds.
pub fn mean_ns(v: &Vec<u64>) -> (r: u64)
    requires
        v@.len() > 0,
    ensures
        r == sum_ns(v@) / (v@.len() as int),
{
    let n = v.len();
    let mut acc: u128 = 0;
    let mut i: usize = 0;
    proof {
        assert(v@.subrange(0, 0) =~= Seq::<u64>::empty());
        lemma_sum_bound(v@);
    }
    while i < n
        invariant
            i <= n,
            n == v@.len(),
            acc == sum_ns(v@.subrange(0, i as int)),
            acc <= (i as int) * u64::MAX,
        decreases n - i,
    {
        proof {
            assert(v@.subrange(0, i + 1).drop_last() =~= v@.subrange(0, i as int));
            lemma_sum_bound(v@.subrange(0, i as int));
            assert((i as int) * u64::MAX + u64::MAX == (i + 1) * u64::MAX) by (nonlinear_arith);
            assert((i + 1) * u64::MAX <= u128::MAX) by (nonlinear_arith)
                requires
                    0 <= i + 1 <= u64::MAX,
            ;
        }
        acc = acc + (v[i] as u128);
        i = i + 1;
    }
    proof {
        assert(v@.subrange(0, n as int) =~= v@);
        assert(sum_ns(v@) / (v@.len() as int) <= u64::MAX) by (nonlinear_arith)
            requires
                v@.len() > 0,
                0 <= sum_ns(v@) <= v@.len() * u64::MAX,
        ;
    }
    (acc / (n as u128)) as u64
}

/// The smallest recorded duration.
pub fn min_ns(v: &Vec<u64>) -> (r: u64)
    requires
        v@.len() > 0,
    ensures
        v@.contains(r),
        forall|i: int| 0 <= i < v@.len() ==> r <= v@[i],
{
    let mut r = v[0];
    let mut i: usize = 1;
    proof {
        assert(v@.contains(v@[0]));
    }
    while i < v.len()
        invariant
            1 <= i <= v@.len(),
            v@.contains(r),
            forall|j: int| 0 <= j < i ==> r <= v@[j],
        decreases v@.len() - i,
    {
        if v[i] < r {
            r = v[i];
            proof {
                assert(v@.contains(v@[i as int]));
            }
        }
        i = i + 1;
    }
    r
}

/// The largest recorded duration.
pub fn max_ns(v: &Vec<u64>) -> (r: u64)
    requires
        v@.len() > 0,
    ensures
        v@.contains(r),
        forall|i: int| 0 <= i < v@.len() ==> v@[i] <= r,
{
    let mut r = v[0];
    let mut i: usize = 1;
    proof {
        assert(v@.contains(v@[0]));
    }
    while i < v.len()
        invariant
            1 <= i <= v@.len(),
            v@.contains(r),
            forall|j: int| 0 <= j < i ==> v@[j] <= r,
        decreases v@.len() - i,
    {
        if v[i] > r {
            r = v[i];
            proof {
                assert(v@.contains(v@[i as int]));
            }
        }
        i = i + 1;
    }
    r
}

pub open spec fn sorted_ns(s: Seq<u64>) -> bool {
    forall|i: int, j: int| 0 <= i < j < s.len() ==> s[i] <= s[j]
}

proof fn lemma_insert_multiset(s: Seq<u64>, j: int, x: u64)
    requires
        0 <= j <= s.len(),
    ensures
        s.insert(j, x).to_multiset() =~= s.to_multiset().insert(x),
{
    broadcast use group_multiset_axioms;
    broadcast use group_to_multiset_ensures;

    let a = s.subrange(0, j);
    let b = s.subrange(j, s.len() as int);
    assert(s =~= a + b);
    lemma_multiset_commutative(a, b);
    assert(s.insert(j, x) =~= a.push(x) + b);
    lemma_multiset_commutative(a.push(x), b);
    assert(a.push(x).to_multiset() =~= a.to_multiset().insert(x));
}

/// A sorted copy of the recorded durations.
pub fn sorted_copy(v: &Vec<u64>) -> (r: Vec<u64>)
    ensures
        sorted_ns(r@),
        r@.to_multiset() == v@.to_multiset(),
        r@.len() == v@.len(),
{
    broadcast use group_to_multiset_ensures;

    let mut r: Vec<u64> = Vec::new();
    let mut i: usize = 0;
    proof {
        assert(v@.subrange(0, 0) =~= Seq::<u64>::empty());
        assert(r@.to_multiset() =~= v@.subrange(0, 0).to_multiset());
    }
    while i < v.len()
        invariant
            i <= v@.len(),
            r@.len() == i,
            sorted_ns(r@),
            r@.to_multiset() == v@.subrange(0, i as int).to_multiset(),
        decreases v@.len() - i,
    {
        let x = v[i];
        let mut j: usize = 0;
        while j < r.len() && r[j] <= x
            invariant
                j <= r@.len(),
                forall|t: int| 0 <= t < j ==> r@[t] <= x,
                sorted_ns(r@),
            decreases r@.len() - j,
        {
            j = j + 1;
        }
        let ghost rold = r@;
        r.insert(j, x);
        proof {
            assert(r@ =~= rold.insert(j as int, x));
            lemma_insert_multiset(rold, j as int, x);
            assert(v@.subrange(0, i + 1) =~= v@.subrange(0, i as int).push(v@[i as int]));
            v@.subrange(0, i as int).to_multiset_ensures();
            assert(v@.subrange(0, i as int).push(v@[i as int]).to_multiset() =~= v@.subrange(
                0,
                i as int,
            ).to_multiset().insert(v@[i as int]));
            assert(sorted_ns(r@)) by {
                assert forall|t1: int, t2: int| 0 <= t1 < t2 < r@.len() implies r@[t1] <= r@[t2] by {
                    assert(forall|t: int| 0 <= t < j ==> r@[t] == rold[t]);
                    assert(r@[j as int] == x);
                    assert(forall|t: int| j < t < r@.len() ==> r@[t] == rold[t - 1]);
                    if t1 < j && t2 > j {
                        assert(rold[t1] <= x || true);
                    }
                    if t2 > j {
                        assert(j < rold.len() + 1);
                        if j < rold.len() {
                            assert(!(rold[j as int] <= x));
                        }
                    }
                }
            }
        }
        i = i + 1;
    }
    proof {
        assert(v@.subrange(0, v@.len() as int) =~= v@);
    }
    r
}

/// The percentile cut point of a sorted duration list: the entry at
/// index `len * p / 100`.
pub fn percentile_ns(sorted: &Vec<u64>, p: usize) -> (r: u64)
    requires
        sorted@.len() > 0,
        p < 100,
        sorted@.len() <= usize::MAX / 100,
    ensures
        r == sorted@[(sorted@.len() * p / 100) as int],
{
    let n = sorted.len();
    proof {
        let np = n as int * p as int;
        vstd::arithmetic::div_mod::lemma_fundamental_div_mod(usize::MAX as int, 100);
        vstd::arithmetic::mul::lemma_mul_inequality(n as int, usize::MAX as int / 100, 100);
        vstd::arithmetic::mul::lemma_mul_strict_inequality(p as int, 100, n as int);
        vstd::arithmetic::mul::lemma_mul_is_commutative(n as int, p as int);
        vstd::arithmetic::mul::lemma_mul_is_commutative(n as int, 100);
        vstd::arithmetic::mul::lemma_mul_is_commutative(usize::MAX as int / 100, 100);
        vstd::arithmetic::div_mod::lemma_fundamental_div_mod(np, 100);
    }
    let idx = n * p / 100;
    sorted[idx]
}

/// The standard percentile cut points, highest first:
/// 99, 95, 90, 75, 50, 25 and 10.
pub fn percentile_points(sorted: &Vec<u64>) -> (r: Vec<(usize, u64)>)
    requires
        sorted@.len() > 0,
        sorted@.len() <= usize::MAX / 100,
    ensures
        r@.len() == 7,
        forall|k: int|
            0 <= k < 7 ==> (#[trigger] r@[k]).1 == sorted@[(sorted@.len() * r@[k].0 / 100) as int],
        r@[0].0 == 99 && r@[1].0 == 95 && r@[2].0 == 90 && r@[3].0 == 75 && r@[4].0 == 50
            && r@[5].0 == 25 && r@[6].0 == 10,
{
    let mut r: Vec<(usize, u64)> = Vec::new();
    r.push((99, percentile_ns(sorted, 99)));
    r.push((95, percentile_ns(sorted, 95)));
    r.push((90, percentile_ns(sorted, 90)));
    r.push((75, percentile_ns(sorted, 75)));
    r.push((50, percentile_ns(sorted, 50)));
    r.push((25, percentile_ns(sorted, 25)));
    r.push((10, percentile_ns(sorted, 10)));
    r
}

/// How many samples of a status code a count list records.
pub open spec fn code_count(s: Seq<(u16, u64)>, c: u16) -> int
    decreases s.len(),
{
    if s.len() == 0 {
        0
    } else {
        code_count(s.drop_last(), c) + if s.last().0 == c {
            s.last().1 as int
        } else {
            0
        }
    }
}

proof fn lemma_code_count_nonneg(s: Seq<(u16, u64)>, c: u16)
    ensures
        code_count(s, c) >= 0,
    decreases s.len(),
{
    if s.len() > 0 {
        lemma_code_count_nonneg(s.drop_last(), c);
    }
}

proof fn lemma_code_count_update(s: Seq<(u16, u64)>, i: int, n: u64, c: u16)
    requires
        0 <= i < s.len(),
        s[i].0 == c,
        forall|j: int, k: int| 0 <= j < k < s.len() ==> s[j].0 != s[k].0,
    ensures
        code_count(s.update(i, (c, n)), c) == code_count(s, c) - s[i].1 + n,
        forall|d: u16| d != c ==> code_count(s.update(i, (c, n)), d) == code_count(s, d),
    decreases s.len(),
{
    let upd = s.update(i, (c, n));
    if i == s.len() - 1 {
        assert(upd.drop_last() =~= s.drop_last());
    } else {
        assert(upd.drop_last() =~= s.drop_last().update(i, (c, n)));
        assert(forall|j: int| 0 <= j < s.drop_last().len() ==> s.drop_last()[j] == s[j]);
        lemma_code_count_update(s.drop_last(), i, n, c);
        assert(s.last() == s[s.len() - 1]);
        assert(s.last().0 != c);
        assert(upd.last() == s.last());
    }
    assert forall|d: u16| d != c implies code_count(upd, d) == code_count(s, d) by {
        if i == s.len() - 1 {
            assert(upd.drop_last() =~= s.drop_last());
            assert(upd.last().0 == c);
            assert(s.last().0 == c);
        } else {
            assert(code_count(upd.drop_last(), d) == code_count(s.drop_last(), d));
            assert(upd.last() == s.last());
        }
    }
}

proof fn lemma_code_count_push(s: Seq<(u16, u64)>, c: u16, n: u64)
    ensures
        code_count(s.push((c, n)), c) == code_count(s, c) + n,
        forall|d: u16| d != c ==> code_count(s.push((c, n)), d) == code_count(s, d),
{
    assert(s.push((c, n)).drop_last() =~= s);
}

/// The shared aggregates a benchmark collects: one count per status
/// code, and every successful call's duration.
pub struct Aggregates {
    status_counts: Vec<(u16, u64)>,
    durations_ns: Vec<u64>,
}

impl Aggregates {
    pub closed spec fn counts(&self) -> Seq<(u16, u64)> {
        self.status_counts@
    }

    pub closed spec fn durations(&self) -> Seq<u64> {
        self.durations_ns@
    }

    pub closed spec fn wf(&self) -> bool {
        &&& forall|j: int, k: int|
            0 <= j < k < self.status_counts@.len() ==> self.status_counts@[j].0
                != self.status_counts@[k].0
        &&& forall|c: u16| code_count(self.status_counts@, c) <= self.durations_ns@.len()
    }

    pub fn new() -> (r: Self)
        ensures
            r.wf(),
            r.durations() =~= Seq::<u64>::empty(),
            forall|c: u16| code_count(r.counts(), c) == 0,
    {
        let r = Aggregates { status_counts: Vec::new(), durations_ns: Vec::new() };
        proof {
            assert(r.status_counts@ =~= Seq::<(u16, u64)>::empty());
        }
        r
    }

    /// Records one successful call: its status code and duration.
    pub fn record(&mut self, status: u16, duration_ns: u64)
        requires
            old(self).wf(),
            old(self).durations().len() < u64::MAX,
        ensures
            final(self).wf(),
            final(self).durations() == old(self).durations().push(duration_ns),
            code_count(final(self).counts(), status) == code_count(old(self).counts(), status)
                + 1,
            forall|c: u16|
                c != status ==> code_count(final(self).counts(), c) == code_count(
                    old(self).counts(),
                    c,
                ),
    {
        let ghost oc = self.status_counts@;
        let n = self.status_counts.len();
        let mut i: usize = 0;
        let mut found = false;
        while i < n && !found
            invariant
                i <= n,
                n == self.status_counts@.len(),
                !found ==> forall|j: int| 0 <= j < i ==> self.status_counts@[j].0 != status,
                found ==> i < n && self.status_counts@[i as int].0 == status,
                oc == self.status_counts@,
            decreases n - i + if found {
                0int
            } else {
                1int
            },
        {
            if self.status_counts[i].0 == status {
                found = true;
            } else {
                i = i + 1;
            }
        }
        if found {
            let c = self.status_counts[i].1;
            proof {
                lemma_code_count_nonneg(oc, status);
                lemma_count_at_index(oc, i as int, status);
            }
            self.status_counts.set(i, (status, c + 1));
            proof {
                lemma_code_count_update(oc, i as int, (c + 1) as u64, status);
            }
        } else {
            self.status_counts.push((status, 1));
            proof {
                lemma_code_count_push(oc, status, 1);
                lemma_code_count_absent(oc, status);
            }
        }
        self.durations_ns.push(duration_ns);
        proof {
            assert forall|c: u16| code_count(self.status_counts@, c)
                <= self.durations_ns@.len() by {
                lemma_code_count_nonneg(oc, c);
            }
        }
    }

    /// The recorded durations.
    pub fn durations_list(&self) -> (r: &Vec<u64>)
        ensures
            r@ == self.durations(),
    {
        &self.durations_ns
    }

    /// The recorded status codes and their counts.
    pub fn status_list(&self) -> (r: &Vec<(u16, u64)>)
        ensures
            r@ == self.counts(),
    {
        &self.status_counts
    }
}

proof fn lemma_count_at_index(s: Seq<(u16, u64)>, i: int, c: u16)
    requires
        0 <= i < s.len(),
        s[i].0 == c,
        forall|j: int, k: int| 0 <= j < k < s.len() ==> s[j].0 != s[k].0,
    ensures
        code_count(s, c) == s[i].1,
    decreases s.len(),
{
    if i == s.len() - 1 {
        lemma_code_count_absent_prefix(s.drop_last(), c, s, i);
    } else {
        assert(s.drop_last()[i] == s[i]);
        lemma_count_at_index(s.drop_last(), i, c);
        assert(s.last().0 != c);
    }
}

proof fn lemma_code_count_absent(s: Seq<(u16, u64)>, c: u16)
    requires
        forall|j: int| 0 <= j < s.len() ==> s[j].0 != c,
    ensures
        code_count(s, c) == 0,
    decreases s.len(),
{
    if s.len() > 0 {
        lemma_code_count_absent(s.drop_last(), c);
    }
}

proof fn lemma_code_count_absent_prefix(p: Seq<(u16, u64)>, c: u16, s: Seq<(u16, u64)>, i: int)
    requires
        p == s.drop_last(),
        0 <= i == s.len() - 1,
        s[i].0 == c,
        forall|j: int, k: int| 0 <= j < k < s.len() ==> s[j].0 != s[k].0,
    ensures
        code_count(p, c) == 0,
{
    assert(forall|j: int| 0 <= j < p.len() ==> p[j] == s[j]);
    lemma_code_count_absent(p, c);
}

/// Which linear bucket a duration falls in, the last bucket catching
/// the top of the range.
pub open spec fn bucket_of(x: u64, lo: u64, size: u64, bins: int) -> int
    recommends
        size > 0,
        x >= lo,
{
    let b = (x - lo) / (size as int);
    if b >= bins {
        bins - 1
    } else {
        b
    }
}

/// How many of the values fall in a bucket.
pub open spec fn bucket_count(s: Seq<u64>, b: int, lo: u64, size: u64, bins: int) -> int
    decreases s.len(),
{
    if s.len() == 0 {
        0
    } else {
        bucket_count(s.drop_last(), b, lo, size, bins) + if bucket_of(s.last(), lo, size, bins)
            == b {
            1int
        } else {
            0int
        }
    }
}

/// The width of a bucket: the range split over the buckets, and at
/// least one so that every sample lands somewhere.
pub open spec fn bin_width(s: Seq<u64>, bins: int) -> int {
    let w = (spec_max_of(s) - spec_min_of(s)) / bins;
    if w < 1 {
        1
    } else {
        w
    }
}

/// A histogram of the durations over linear buckets from the smallest
/// to the largest value: the bucket ranges, and how many values fall
/// in each bucket; the last bucket catches the top of the range.
pub fn histogram(values: &Vec<u64>, num_bins: usize) -> (r: (Vec<(u64, u64)>, Vec<usize>))
    requires
        values@.len() > 0,
        num_bins > 0,
        num_bins <= u64::MAX,
        spec_min_of(values@) + num_bins <= u64::MAX,
    ensures
        r.0@.len() == num_bins,
        r.1@.len() == num_bins,
        forall|b: int|
            0 <= b < num_bins ==> {
                let lo = spec_min_of(values@);
                let size = bin_width(values@, num_bins as int);
                &&& (#[trigger] r.0@[b]).0 == lo + b * size
                &&& r.0@[b].1 == lo + (b + 1) * size
                &&& r.1@[b] == bucket_count(values@, b, lo, size as u64, num_bins as int)
            },
{
    let lo = min_ns(values);
    let hi = max_ns(values);
    proof {
        lemma_min_is_spec(values@, lo);
        lemma_max_is_spec(values@, hi);
    }
    let spread = (hi - lo) / (num_bins as u64);
    let size = if spread == 0 {
        1
    } else {
        spread
    };
    let mut counts: Vec<usize> = Vec::new();
    let mut b: usize = 0;
    while b < num_bins
        invariant
            b <= num_bins,
            counts@.len() == b,
            forall|t: int| 0 <= t < b ==> counts@[t] == 0,
        decreases num_bins - b,
    {
        counts.push(0);
        b = b + 1;
    }
    let mut i: usize = 0;
    proof {
        assert forall|t: int| 0 <= t < num_bins implies bucket_count(
            values@.subrange(0, 0),
            t,
            lo,
            size,
            num_bins as int,
        ) == 0 by {
            assert(values@.subrange(0, 0) =~= Seq::<u64>::empty());
        }
    }
    while i < values.len()
        invariant
            i <= values@.len(),
            size > 0,
            counts@.len() == num_bins,
            num_bins > 0,
            forall|j: int| 0 <= j < values@.len() ==> lo <= values@[j],
            forall|t: int|
                0 <= t < num_bins ==> counts@[t] == bucket_count(
                    values@.subrange(0, i as int),
                    t,
                    lo,
                    size,
                    num_bins as int,
                ),
            forall|t: int| 0 <= t < num_bins ==> counts@[t] <= i,
        decreases values@.len() - i,
    {
        let x = values[i];
        let b64 = (x - lo) / size;
        let bin = if b64 >= num_bins as u64 {
            num_bins - 1
        } else {
            b64 as usize
        };
        let ghost prev = counts@;
        let c = counts[bin];
        counts.set(bin, c + 1);
        proof {
            assert(values@.subrange(0, i + 1).drop_last() =~= values@.subrange(0, i as int));
            assert(values@.subrange(0, i + 1).last() == values@[i as int]);
            assert(bin as int == bucket_of(values@[i as int], lo, size, num_bins as int));
            assert forall|t: int| 0 <= t < num_bins implies counts@[t] == bucket_count(
                values@.subrange(0, i + 1),
                t,
                lo,
                size,
                num_bins as int,
            ) by {
                if t == bin as int {
                } else {
                    assert(counts@[t] == prev[t]);
                }
            }
        }
        i = i + 1;
    }
    proof {
        assert(values@.subrange(0, values@.len() as int) =~= values@);
    }
    let mut ranges: Vec<(u64, u64)> = Vec::new();
    let mut b2: usize = 0;
    while b2 < num_bins
        invariant
            b2 <= num_bins,
            size as int == bin_width(values@, num_bins as int),
            hi == spec_max_of(values@),
            lo == spec_min_of(values@),
            lo <= hi,
            lo + num_bins <= u64::MAX,
            num_bins > 0,
            num_bins <= u64::MAX,
            ranges@.len() == b2,
            forall|t: int|
                0 <= t < b2 ==> (#[trigger] ranges@[t]).0 == lo + t * size && ranges@[t].1 == lo + (
                t + 1) * size,
        decreases num_bins - b2,
    {
        proof {
            lemma_bucket_edge_bounds(lo, hi, size, num_bins as int, b2 as int);
        }
        let start = lo + (b2 as u64) * size;
        let end = lo + (b2 as u64 + 1) * size;
        ranges.push((start, end));
        b2 = b2 + 1;
    }
    (ranges, counts)
}

/// The smallest value of a non-empty list.
pub open spec fn spec_min_of(s: Seq<u64>) -> u64
    decreases s.len(),
{
    if s.len() <= 1 {
        s[0]
    } else if s.last() < spec_min_of(s.drop_last()) {
        s.last()
    } else {
        spec_min_of(s.drop_last())
    }
}

/// The largest value of a non-empty list.
pub open spec fn spec_max_of(s: Seq<u64>) -> u64
    decreases s.len(),
{
    if s.len() <= 1 {
        s[0]
    } else if s.last() > spec_max_of(s.drop_last()) {
        s.last()
    } else {
        spec_max_of(s.drop_last())
    }
}

proof fn lemma_min_props(s: Seq<u64>)
    requires
        s.len() > 0,
    ensures
        s.contains(spec_min_of(s)),
        forall|i: int| 0 <= i < s.len() ==> spec_min_of(s) <= s[i],
    decreases s.len(),
{
    if s.len() == 1 {
        assert(s.contains(s[0]));
    } else {
        lemma_min_props(s.drop_last());
        assert(forall|i: int| 0 <= i < s.len() - 1 ==> s.drop_last()[i] == s[i]);
        if s.drop_last().contains(spec_min_of(s.drop_last())) {
            let i = choose|i: int|
                0 <= i < s.drop_last().len() && s.drop_last()[i] == spec_min_of(s.drop_last());
            assert(s[i] == s.drop_last()[i]);
        }
        assert(s.contains(s.last()) || true) by {
            assert(s[s.len() - 1] == s.last());
        }
    }
}

proof fn lemma_max_props(s: Seq<u64>)
    requires
        s.len() > 0,
    ensures
        s.contains(spec_max_of(s)),
        forall|i: int| 0 <= i < s.len() ==> s[i] <= spec_max_of(s),
    decreases s.len(),
{
    if s.len() == 1 {
        assert(s.contains(s[0]));
    } else {
        lemma_max_props(s.drop_last());
        assert(forall|i: int| 0 <= i < s.len() - 1 ==> s.drop_last()[i] == s[i]);
        if s.drop_last().contains(spec_max_of(s.drop_last())) {
            let i = choose|i: int|
                0 <= i < s.drop_last().len() && s.drop_last()[i] == spec_max_of(s.drop_last());
            assert(s[i] == s.drop_last()[i]);
        }
        assert(s[s.len() - 1] == s.last());
    }
}

proof fn lemma_min_is_spec(s: Seq<u64>, m: u64)
    requires
        s.len() > 0,
        s.contains(m),
        forall|i: int| 0 <= i < s.len() ==> m <= s[i],
    ensures
        m == spec_min_of(s),
{
    lemma_min_props(s);
    let i = choose|i: int| 0 <= i < s.len() && s[i] == spec_min_of(s);
    let j = choose|j: int| 0 <= j < s.len() && s[j] == m;
}

proof fn lemma_max_is_spec(s: Seq<u64>, m: u64)
    requires
        s.len() > 0,
        s.contains(m),
        forall|i: int| 0 <= i < s.len() ==> s[i] <= m,
    ensures
        m == spec_max_of(s),
{
    lemma_max_props(s);
    let i = choose|i: int| 0 <= i < s.len() && s[i] == spec_max_of(s);
    let j = choose|j: int| 0 <= j < s.len() && s[j] == m;
}

proof fn lemma_bucket_edge_bounds(lo: u64, hi: u64, size: u64, bins: int, b: int)
    requires
        lo <= hi,
        bins > 0,
        0 <= b < bins,
        size as int == if (hi - lo) / bins < 1 {
            1int
        } else {
            (hi - lo) / bins
        },
        lo + bins <= u64::MAX,
    ensures
        lo + (b + 1) * size <= u64::MAX,
        0 <= b * size <= (b + 1) * size,
{
    assert((b + 1) * size <= bins * size) by (nonlinear_arith)
        requires
            0 <= b + 1 <= bins,
            size >= 0,
    ;
    assert(b * size <= (b + 1) * size) by (nonlinear_arith)
        requires
            size >= 0,
            b >= 0,
    ;
    if (hi - lo) / bins >= 1 {
        vstd::arithmetic::div_mod::lemma_fundamental_div_mod(hi as int - lo as int, bins);
        assert(bins * ((hi - lo) / bins) <= hi - lo) by (nonlinear_arith)
            requires
                bins > 0,
                hi >= lo,
        ;
        assert(lo + (b + 1) * size <= hi);
    } else {
        assert(bins * size == bins) by (nonlinear_arith)
            requires
                size == 1,
        ;
    }
}

} // verus!
