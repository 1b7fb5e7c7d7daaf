//! Daily vote series: the day-bucket rule and the ordered list of
//! `(day start, count)` points kept for each candidate.

use vstd::prelude::*;
use crate::types::PairTime;

verus! {

/// Nanoseconds in one day.
pub const NANOS_PER_DAY: u64 = 86_400_000_000_000;

/// Milliseconds in one day.
pub const MILLIS_PER_DAY: i64 = 86_400_000;

/// The start of the UTC day that holds `timestamp_nanos`, in milliseconds.
pub open spec fn spec_day_start(timestamp_nanos: nat) -> int {
    ((timestamp_nanos / 86_400_000_000_000) * 86_400_000) as int
}

/// Sum of the counts of a series.
pub open spec fn series_total(s: Seq<PairTime>) -> int
    decreases s.len(),
{
    if s.len() == 0 {
        0
    } else {
        series_total(s.drop_last()) + s.last().y
    }
}

/// Sum of the counts that a series holds for `day`.
pub open spec fn count_on(s: Seq<PairTime>, day: int) -> int
    decreases s.len(),
{
    if s.len() == 0 {
        0
    } else {
        count_on(s.drop_last(), day) + if s.last().x == day {
            s.last().y as int
        } else {
            0
        }
    }
}

/// A well-formed series: days strictly ascending, every count positive.
pub open spec fn is_series(s: Seq<PairTime>) -> bool {
    &&& forall|i: int, j: int| 0 <= i < j < s.len() ==> s[i].x < s[j].x
    &&& forall|i: int| 0 <= i < s.len() ==> s[i].y >= 1
}

/// `after` is `before` with one more vote counted on `day`, and still a
/// well-formed series.
pub open spec fn one_more_on(before: Seq<PairTime>, after: Seq<PairTime>, day: int) -> bool {
    &&& is_series(after)
    &&& forall|d: int| #[trigger] count_on(after, d) == count_on(before, d) + if d == day {
        1int
    } else {
        0int
    }
}

/// The start of the UTC day that holds `timestamp_nanos`, in milliseconds:
/// the timestamp truncated to a whole number of days.
pub fn day_start_millis(timestamp_nanos: u64) -> (r: i64)
    ensures
        r as int == spec_day_start(timestamp_nanos as nat),
        r >= 0,
{
    let days: u64 = timestamp_nanos / NANOS_PER_DAY;
    assert(days <= 213_503) by (nonlinear_arith)
        requires
            days == timestamp_nanos / 86_400_000_000_000u64,
            timestamp_nanos <= 0xffff_ffff_ffff_ffffu64,
    ;
    (days as i64) * MILLIS_PER_DAY
}

/// Two instants one second apart within one UTC day fall in the same day
/// bucket; instants one day apart fall in buckets one day apart.
pub proof fn lemma_day_buckets(timestamp_nanos: nat)
    ensures
        timestamp_nanos % 86_400_000_000_000 < 86_400_000_000_000 - 1_000_000_000 ==> spec_day_start(
            timestamp_nanos + 1_000_000_000,
        ) == spec_day_start(timestamp_nanos),
        spec_day_start(timestamp_nanos + 86_400_000_000_000) == spec_day_start(timestamp_nanos)
            + 86_400_000,
{
    let d: int = 86_400_000_000_000;
    let t = timestamp_nanos as int;
    let q = t / d;
    let r = t % d;
    assert(t == q * d + r && 0 <= r < d) by (nonlinear_arith)
        requires
            d > 0,
            q == t / d,
            r == t % d,
    ;
    if r < d - 1_000_000_000 {
        assert((t + 1_000_000_000) / d == q) by (nonlinear_arith)
            requires
                t == q * d + r,
                0 <= r < d - 1_000_000_000,
                d > 0,
        ;
    }
    assert((t + d) / d == q + 1) by (nonlinear_arith)
        requires
            t == q * d + r,
            0 <= r < d,
            d > 0,
    ;
}

proof fn lemma_count_absent(s: Seq<PairTime>, day: int)
    requires
        forall|i: int| 0 <= i < s.len() ==> s[i].x != day,
    ensures
        count_on(s, day) == 0,
    decreases s.len(),
{
    if s.len() > 0 {
        let r = s.drop_last();
        assert forall|i: int| 0 <= i < r.len() implies r[i].x != day by {
            assert(r[i] == s[i]);
        }
        lemma_count_absent(r, day);
    }
}

proof fn lemma_count_present(s: Seq<PairTime>, i: int)
    requires
        0 <= i < s.len(),
        forall|k: int| 0 <= k < s.len() ==> s[k].y >= 0,
    ensures
        count_on(s, s[i].x as int) >= s[i].y,
    decreases s.len(),
{
    let r = s.drop_last();
    if i == s.len() - 1 {
        lemma_count_nonnegative(r, s[i].x as int);
    } else {
        assert(r[i] == s[i]);
        lemma_count_present(r, i);
    }
}

proof fn lemma_count_nonnegative(s: Seq<PairTime>, day: int)
    requires
        forall|k: int| 0 <= k < s.len() ==> s[k].y >= 0,
    ensures
        count_on(s, day) >= 0,
    decreases s.len(),
{
    if s.len() > 0 {
        let r = s.drop_last();
        assert forall|k: int| 0 <= k < r.len() implies r[k].y >= 0 by {
            assert(r[k] == s[k]);
        }
        lemma_count_nonnegative(r, day);
    }
}

/// A well-formed series is determined by its count on each day: two series
/// with the same counts are equal.
pub proof fn lemma_series_determined(a: Seq<PairTime>, b: Seq<PairTime>)
    requires
        is_series(a),
        is_series(b),
        forall|d: int| #[trigger] count_on(a, d) == count_on(b, d),
    ensures
        a == b,
    decreases a.len() + b.len(),
{
    if a.len() == 0 && b.len() == 0 {
        assert(a =~= b);
    } else if a.len() == 0 {
        lemma_count_absent(a, b.last().x as int);
        lemma_count_present(b, b.len() - 1);
        assert(count_on(a, b.last().x as int) == count_on(b, b.last().x as int));
    } else if b.len() == 0 {
        lemma_count_absent(b, a.last().x as int);
        lemma_count_present(a, a.len() - 1);
        assert(count_on(a, a.last().x as int) == count_on(b, a.last().x as int));
    } else {
        let la = a.last();
        let lb = b.last();
        let ra = a.drop_last();
        let rb = b.drop_last();
        if la.x < lb.x {
            lemma_count_absent(a, lb.x as int);
            lemma_count_present(b, b.len() - 1);
            assert(count_on(a, lb.x as int) == count_on(b, lb.x as int));
        } else if lb.x < la.x {
            lemma_count_absent(b, la.x as int);
            lemma_count_present(a, a.len() - 1);
            assert(count_on(a, la.x as int) == count_on(b, la.x as int));
        }
        assert(la.x == lb.x);
        assert forall|i: int| 0 <= i < ra.len() implies ra[i].x != la.x by {
            assert(ra[i] == a[i]);
        }
        assert forall|i: int| 0 <= i < rb.len() implies rb[i].x != lb.x by {
            assert(rb[i] == b[i]);
        }
        lemma_count_absent(ra, la.x as int);
        lemma_count_absent(rb, lb.x as int);
        assert(count_on(a, la.x as int) == count_on(b, la.x as int));
        assert(la.y == lb.y);
        assert forall|d: int| #[trigger] count_on(ra, d) == count_on(rb, d) by {
            assert(count_on(a, d) == count_on(b, d));
        }
        assert forall|i: int, j: int| 0 <= i < j < ra.len() implies ra[i].x < ra[j].x by {
            assert(ra[i] == a[i] && ra[j] == a[j]);
        }
        assert forall|i: int| 0 <= i < ra.len() implies ra[i].y >= 1 by {
            assert(ra[i] == a[i]);
        }
        assert forall|i: int, j: int| 0 <= i < j < rb.len() implies rb[i].x < rb[j].x by {
            assert(rb[i] == b[i] && rb[j] == b[j]);
        }
        assert forall|i: int| 0 <= i < rb.len() implies rb[i].y >= 1 by {
            assert(rb[i] == b[i]);
        }
        lemma_series_determined(ra, rb);
        assert(a =~= ra.push(la));
        assert(b =~= rb.push(lb));
    }
}

proof fn lemma_counts_nonnegative(s: Seq<PairTime>)
    requires
        forall|i: int| 0 <= i < s.len() ==> s[i].y >= 0,
    ensures
        forall|i: int| 0 <= i < s.len() ==> s[i].y <= series_total(s),
        series_total(s) >= 0,
    decreases s.len(),
{
    if s.len() > 0 {
        let r = s.drop_last();
        lemma_counts_nonnegative(r);
        assert forall|i: int| 0 <= i < s.len() implies s[i].y <= series_total(s) by {
            if i < s.len() - 1 {
                assert(s[i] == r[i]);
            }
        }
    }
}

proof fn lemma_update(s: Seq<PairTime>, i: int, p: PairTime)
    requires
        0 <= i < s.len(),
    ensures
        series_total(s.update(i, p)) == series_total(s) - s[i].y + p.y,
        forall|d: int|
            #[trigger] count_on(s.update(i, p), d) == count_on(s, d) - (if s[i].x == d {
                s[i].y as int
            } else {
                0
            }) + (if p.x == d {
                p.y as int
            } else {
                0
            }),
    decreases s.len(),
{
    let t = s.update(i, p);
    if i == s.len() - 1 {
        assert(t.drop_last() =~= s.drop_last());
    } else {
        assert(t.drop_last() =~= s.drop_last().update(i, p));
        lemma_update(s.drop_last(), i, p);
    }
    assert forall|d: int|
        #[trigger] count_on(t, d) == count_on(s, d) - (if s[i].x == d {
            s[i].y as int
        } else {
            0
        }) + (if p.x == d {
            p.y as int
        } else {
            0
        }) by {
        if i < s.len() - 1 {
            assert(count_on(t.drop_last(), d) == count_on(s.drop_last().update(i, p), d));
        }
    }
}

proof fn lemma_insert(s: Seq<PairTime>, i: int, p: PairTime)
    requires
        0 <= i <= s.len(),
    ensures
        series_total(s.insert(i, p)) == series_total(s) + p.y,
        forall|d: int|
            #[trigger] count_on(s.insert(i, p), d) == count_on(s, d) + (if p.x == d {
                p.y as int
            } else {
                0
            }),
    decreases s.len(),
{
    let t = s.insert(i, p);
    if i == s.len() {
        assert(t.drop_last() =~= s);
    } else {
        assert(t.drop_last() =~= s.drop_last().insert(i, p));
        lemma_insert(s.drop_last(), i, p);
    }
    assert forall|d: int|
        #[trigger] count_on(t, d) == count_on(s, d) + (if p.x == d {
            p.y as int
        } else {
            0
        }) by {
        if i < s.len() {
            assert(count_on(t.drop_last(), d) == count_on(s.drop_last().insert(i, p), d));
        }
    }
}

proof fn lemma_prefix_total(s: Seq<PairTime>, k: int)
    requires
        0 <= k <= s.len(),
        forall|i: int| 0 <= i < s.len() ==> s[i].y >= 0,
    ensures
        series_total(s.subrange(0, k)) <= series_total(s),
    decreases s.len(),
{
    if k < s.len() {
        let r = s.drop_last();
        assert forall|i: int| 0 <= i < r.len() implies r[i].y >= 0 by {
            assert(r[i] == s[i]);
        }
        lemma_prefix_total(r, k);
        assert(r.subrange(0, k) =~= s.subrange(0, k));
    } else {
        assert(s.subrange(0, k) =~= s);
    }
}

/// Whether `s` is a well-formed series whose counts add up to `total`.
pub fn check_series(s: &Vec<PairTime>, total: i32) -> (r: bool)
    ensures
        r == (is_series(s@) && series_total(s@) == total as int),
{
    if total < 0 {
        proof {
            if is_series(s@) {
                lemma_counts_nonnegative(s@);
            }
        }
        return false;
    }
    let mut sum: i64 = 0;
    let mut k: usize = 0;
    while k < s.len()
        invariant
            0 <= k <= s.len(),
            sum as int == series_total(s@.subrange(0, k as int)),
            sum <= total,
            forall|i: int, j: int| 0 <= i < j < k ==> s@[i].x < s@[j].x,
            forall|i: int| 0 <= i < k ==> s@[i].y >= 1,
        decreases s.len() - k,
    {
        let p = s[k];
        if p.y < 1 {
            return false;
        }
        if k > 0 && s[k - 1].x >= p.x {
            return false;
        }
        proof {
            assert(s@.subrange(0, k as int + 1).drop_last() =~= s@.subrange(0, k as int));
        }
        sum = sum + p.y as i64;
        if sum > total as i64 {
            proof {
                if is_series(s@) {
                    lemma_prefix_total(s@, k as int + 1);
                }
            }
            return false;
        }
        k = k + 1;
    }
    proof {
        assert(s@.subrange(0, s.len() as int) =~= s@);
    }
    sum == total as i64
}

/// Counts one vote on `day` in `series`: the day's point is incremented, or
/// created with a count of one at its place in day order.
pub fn count_vote_on(series: &mut Vec<PairTime>, day: i64)
    requires
        is_series(old(series)@),
        series_total(old(series)@) < i32::MAX,
    ensures
        one_more_on(old(series)@, final(series)@, day as int),
        series_total(final(series)@) == series_total(old(series)@) + 1,
{
    let ghost s0 = series@;
    let mut i: usize = 0;
    while i < series.len() && series[i].x < day
        invariant
            series@ == s0,
            0 <= i <= s0.len(),
            forall|j: int| 0 <= j < i ==> s0[j].x < day,
        decreases s0.len() - i,
    {
        i = i + 1;
    }
    if i < series.len() && series[i].x == day {
        let y = series[i].y;
        proof {
            lemma_counts_nonnegative(s0);
        }
        let p = PairTime { x: day, y: y + 1 };
        series.set(i, p);
        proof {
            lemma_update(s0, i as int, p);
        }
    } else {
        let p = PairTime { x: day, y: 1 };
        series.insert(i, p);
        proof {
            lemma_insert(s0, i as int, p);
            let s1 = series@;
            assert forall|a: int, b: int| 0 <= a < b < s1.len() implies s1[a].x < s1[b].x by {
                if b < i {
                } else if b == i {
                } else if a < i {
                } else if a == i {
                    assert(s1[b] == s0[b - 1]);
                } else {
                    assert(s1[a] == s0[a - 1]);
                    assert(s1[b] == s0[b - 1]);
                }
            }
        }
    }
}

} // verus!
