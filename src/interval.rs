use vstd::prelude::*;
use crate::types::Interval;

verus! {

broadcast use vstd::seq_lib::group_to_multiset_ensures;

/// An interval holds at least one tick.
pub open spec fn is_valid(iv: Interval) -> bool {
    iv.start < iv.end
}

/// Tick `t` lies inside the half-open interval.
pub open spec fn contains_point(iv: Interval, t: int) -> bool {
    iv.start <= t < iv.end
}

/// Some interval of the sequence contains tick `t`.
pub open spec fn covers(s: Seq<Interval>, t: int) -> bool {
    exists|k: int| 0 <= k < s.len() && #[trigger] contains_point(s[k], t)
}

/// Two sequences cover exactly the same ticks.
pub open spec fn same_coverage(a: Seq<Interval>, b: Seq<Interval>) -> bool {
    forall|t: int| #[trigger] covers(a, t) == covers(b, t)
}

/// Every interval is valid, and each one ends strictly before the next one starts,
/// so the sequence is sorted by start and no two intervals overlap or touch.
pub open spec fn is_normalized(s: Seq<Interval>) -> bool {
    &&& forall|k: int| 0 <= k < s.len() ==> #[trigger] is_valid(s[k])
    &&& forall|k: int| 0 <= k < s.len() - 1 ==> #[trigger] s[k].end < s[k + 1].start
}

/// `out` is the merged form of `input`: normalized, and covering the same ticks.
pub open spec fn is_merge_of(input: Seq<Interval>, out: Seq<Interval>) -> bool {
    is_normalized(out) && same_coverage(out, input)
}

/// Starts ascend along the sequence.
pub open spec fn sorted_by_start(s: Seq<Interval>) -> bool {
    forall|i: int, j: int| 0 <= i < j < s.len() ==> s[i].start <= s[j].start
}

/// The valid intervals of `s`, in their order.
pub open spec fn valid_only(s: Seq<Interval>) -> Seq<Interval>
    decreases s.len(),
{
    if s.len() == 0 {
        Seq::empty()
    } else if is_valid(s.last()) {
        valid_only(s.drop_last()).push(s.last())
    } else {
        valid_only(s.drop_last())
    }
}

proof fn lemma_valid_only_all_valid(s: Seq<Interval>)
    ensures
        forall|k: int| 0 <= k < valid_only(s).len() ==> #[trigger] is_valid(valid_only(s)[k]),
    decreases s.len(),
{
    if s.len() > 0 {
        let p = valid_only(s.drop_last());
        lemma_valid_only_all_valid(s.drop_last());
        assert forall|k: int| 0 <= k < valid_only(s).len() implies #[trigger] is_valid(
            valid_only(s)[k],
        ) by {
            if k < p.len() {
                assert(is_valid(p[k]));
            }
        }
    }
}

pub(crate) proof fn lemma_covers_push(s: Seq<Interval>, x: Interval)
    ensures
        forall|t: int| #[trigger] covers(s.push(x), t) == (covers(s, t) || contains_point(x, t)),
{
    assert forall|t: int| #[trigger] covers(s.push(x), t) == (covers(s, t) || contains_point(x, t)) by {
        let p = s.push(x);
        if covers(p, t) {
            let k = choose|k: int| 0 <= k < p.len() && #[trigger] contains_point(p[k], t);
            if k < s.len() {
                assert(contains_point(s[k], t));
            }
        }
        if covers(s, t) {
            let k = choose|k: int| 0 <= k < s.len() && #[trigger] contains_point(s[k], t);
            assert(contains_point(p[k], t));
        }
        if contains_point(x, t) {
            assert(contains_point(p[s.len() as int], t));
        }
    }
}

proof fn lemma_valid_only_covers(s: Seq<Interval>)
    ensures
        same_coverage(valid_only(s), s),
    decreases s.len(),
{
    if s.len() > 0 {
        let p = s.drop_last();
        lemma_valid_only_covers(p);
        lemma_covers_push(p, s.last());
        assert(s =~= p.push(s.last()));
        if is_valid(s.last()) {
            lemma_covers_push(valid_only(p), s.last());
        }
    }
}

proof fn lemma_same_multiset_covers(a: Seq<Interval>, b: Seq<Interval>)
    requires
        a.to_multiset() == b.to_multiset(),
    ensures
        same_coverage(a, b),
{
    assert forall|t: int| #[trigger] covers(a, t) == covers(b, t) by {
        if covers(a, t) {
            let k = choose|k: int| 0 <= k < a.len() && #[trigger] contains_point(a[k], t);
            assert(a.contains(a[k]));
            assert(a.to_multiset().count(a[k]) > 0);
            assert(b.to_multiset().count(a[k]) > 0);
            assert(b.contains(a[k]));
            let j = choose|j: int| 0 <= j < b.len() && b[j] == a[k];
            assert(contains_point(b[j], t));
        }
        if covers(b, t) {
            let k = choose|k: int| 0 <= k < b.len() && #[trigger] contains_point(b[k], t);
            assert(b.contains(b[k]));
            assert(b.to_multiset().count(b[k]) > 0);
            assert(a.to_multiset().count(b[k]) > 0);
            assert(a.contains(b[k]));
            let j = choose|j: int| 0 <= j < a.len() && a[j] == b[k];
            assert(contains_point(a[j], t));
        }
    }
}

/// The last interval of `s` widened to also reach the end of `x`.
pub open spec fn extend_last(s: Seq<Interval>, x: Interval) -> Seq<Interval> {
    s.update(
        s.len() - 1,
        Interval {
            start: s.last().start,
            end: if x.end > s.last().end { x.end } else { s.last().end },
        },
    )
}

proof fn lemma_covers_extend_last(s: Seq<Interval>, x: Interval)
    requires
        s.len() > 0,
        s.last().start <= x.start <= s.last().end,
    ensures
        forall|t: int| #[trigger] covers(extend_last(s, x), t) == (covers(s, t) || contains_point(x, t)),
{
    let li = s.len() - 1;
    let y = Interval {
        start: s.last().start,
        end: if x.end > s.last().end { x.end } else { s.last().end },
    };
    let u = s.update(li, y);
    assert forall|t: int| #[trigger] covers(u, t) == (covers(s, t) || contains_point(x, t)) by {
        if covers(u, t) {
            let k = choose|k: int| 0 <= k < u.len() && #[trigger] contains_point(u[k], t);
            if k != li {
                assert(contains_point(s[k], t));
            } else if t < s.last().end {
                assert(contains_point(s[li], t));
            } else {
                assert(contains_point(x, t));
            }
        }
        if covers(s, t) {
            let k = choose|k: int| 0 <= k < s.len() && #[trigger] contains_point(s[k], t);
            assert(contains_point(u[k], t));
        }
        if contains_point(x, t) {
            assert(contains_point(u[li], t));
        }
    }
}

pub(crate) proof fn lemma_normalized_order(s: Seq<Interval>, i: int, j: int)
    requires
        is_normalized(s),
        0 <= i < j < s.len(),
    ensures
        s[i].end < s[j].start,
    decreases j - i,
{
    if j > i + 1 {
        lemma_normalized_order(s, i, j - 1);
        assert(is_valid(s[j - 1]));
        assert(s[j - 1].end < s[j - 1 + 1].start);
    }
}

/// Ticks of a normalized sequence that lie beyond its first interval are those of the rest.
proof fn lemma_normalized_tail_covers(s: Seq<Interval>)
    requires
        is_normalized(s),
        s.len() > 0,
    ensures
        forall|t: int| #[trigger] covers(s.drop_first(), t) == (covers(s, t) && t >= s[0].end),
{
    let r = s.drop_first();
    assert forall|t: int| #[trigger] covers(r, t) == (covers(s, t) && t >= s[0].end) by {
        if covers(r, t) {
            let k = choose|k: int| 0 <= k < r.len() && #[trigger] contains_point(r[k], t);
            lemma_normalized_order(s, 0, k + 1);
            assert(contains_point(s[k + 1], t));
        }
        if covers(s, t) && t >= s[0].end {
            let k = choose|k: int| 0 <= k < s.len() && #[trigger] contains_point(s[k], t);
            assert(k != 0);
            assert(contains_point(r[k - 1], t));
        }
    }
}

/// The first interval of a normalized sequence starts at or before every interval.
proof fn lemma_normalized_first_start(s: Seq<Interval>, t: int)
    requires
        is_normalized(s),
        covers(s, t),
    ensures
        s.len() > 0,
        s[0].start <= t,
{
    let k = choose|k: int| 0 <= k < s.len() && #[trigger] contains_point(s[k], t);
    if k > 0 {
        lemma_normalized_order(s, 0, k);
        assert(is_valid(s[0]));
    }
}

/// A set of ticks has exactly one normalized representation.
pub proof fn lemma_normalized_unique(a: Seq<Interval>, b: Seq<Interval>)
    requires
        is_normalized(a),
        is_normalized(b),
        same_coverage(a, b),
    ensures
        a == b,
    decreases a.len() + b.len(),
{
    if a.len() == 0 || b.len() == 0 {
        if a.len() > 0 {
            assert(is_valid(a[0]));
            assert(contains_point(a[0], a[0].start as int));
            assert(covers(a, a[0].start as int));
            lemma_normalized_first_start(b, a[0].start as int);
        }
        if b.len() > 0 {
            assert(is_valid(b[0]));
            assert(contains_point(b[0], b[0].start as int));
            assert(covers(b, b[0].start as int));
            lemma_normalized_first_start(a, b[0].start as int);
        }
        assert(a =~= b);
    } else {
        let a0 = a[0];
        let b0 = b[0];
        assert(is_valid(a0));
        assert(is_valid(b0));
        assert(contains_point(a[0], a0.start as int));
        assert(covers(a, a0.start as int));
        lemma_normalized_first_start(b, a0.start as int);
        assert(contains_point(b[0], b0.start as int));
        assert(covers(b, b0.start as int));
        lemma_normalized_first_start(a, b0.start as int);
        assert(a0.start == b0.start);
        lemma_normalized_tail_covers(a);
        lemma_normalized_tail_covers(b);
        if a0.end < b0.end {
            let p = a0.end as int;
            assert(contains_point(b[0], p));
            assert(covers(b, p));
            assert(!covers(a.drop_first(), p)) by {
                if covers(a.drop_first(), p) {
                    let k = choose|k: int|
                        0 <= k < a.drop_first().len() && #[trigger] contains_point(
                            a.drop_first()[k],
                            p,
                        );
                    lemma_normalized_order(a, 0, k + 1);
                }
            }
            assert(!covers(a, p));
        }
        if b0.end < a0.end {
            let p = b0.end as int;
            assert(contains_point(a[0], p));
            assert(covers(a, p));
            assert(!covers(b.drop_first(), p)) by {
                if covers(b.drop_first(), p) {
                    let k = choose|k: int|
                        0 <= k < b.drop_first().len() && #[trigger] contains_point(
                            b.drop_first()[k],
                            p,
                        );
                    lemma_normalized_order(b, 0, k + 1);
                }
            }
            assert(!covers(b, p));
        }
        assert(a0 == b0);
        let ra = a.drop_first();
        let rb = b.drop_first();
        assert(is_normalized(ra)) by {
            assert forall|k: int| 0 <= k < ra.len() - 1 implies #[trigger] ra[k].end < ra[k
                + 1].start by {
                assert(a[k + 1].end < a[k + 1 + 1].start);
            }
            assert forall|k: int| 0 <= k < ra.len() implies #[trigger] is_valid(ra[k]) by {
                assert(is_valid(a[k + 1]));
            }
        }
        assert(is_normalized(rb)) by {
            assert forall|k: int| 0 <= k < rb.len() - 1 implies #[trigger] rb[k].end < rb[k
                + 1].start by {
                assert(b[k + 1].end < b[k + 1 + 1].start);
            }
            assert forall|k: int| 0 <= k < rb.len() implies #[trigger] is_valid(rb[k]) by {
                assert(is_valid(b[k + 1]));
            }
        }
        assert(same_coverage(ra, rb)) by {
            assert forall|t: int| #[trigger] covers(ra, t) == covers(rb, t) by {
                assert(covers(a, t) == covers(b, t));
            }
        }
        lemma_normalized_unique(ra, rb);
        assert(a =~= b) by {
            assert forall|k: int| 0 <= k < a.len() implies a[k] == b[k] by {
                if k > 0 {
                    assert(a[k] == ra[k - 1]);
                }
            }
        }
    }
}

/// Relies on `slice::sort_by_key`: the items are reordered, none added or lost,
/// so that their starts ascend.
#[verifier::external_body]
fn sort_by_start(v: &mut Vec<Interval>)
    ensures
        final(v)@.to_multiset() == old(v)@.to_multiset(),
        sorted_by_start(final(v)@),
{
    v.sort_by_key(|iv| iv.start);
}

/// Merges half-open intervals into a sorted set of disjoint, non-touching intervals that
/// covers exactly the ticks the valid input intervals cover. Invalid intervals
/// (`end <= start`) are dropped; the input is left holding its valid intervals sorted by start.
pub fn merge_intervals(intervals: &mut Vec<Interval>) -> (r: Vec<Interval>)
    ensures
        is_merge_of(old(intervals)@, r@),
        final(intervals)@.to_multiset() == valid_only(old(intervals)@).to_multiset(),
        sorted_by_start(final(intervals)@),
{
    let ghost input = intervals@;
    let mut kept: Vec<Interval> = Vec::new();
    let n = intervals.len();
    let mut i: usize = 0;
    while i < n
        invariant
            i <= n,
            n == intervals.len(),
            intervals@ == input,
            kept@ == valid_only(input.subrange(0, i as int)),
        decreases n - i,
    {
        let iv = intervals[i];
        proof {
            assert(input.subrange(0, i + 1).drop_last() =~= input.subrange(0, i as int));
        }
        if iv.end > iv.start {
            kept.push(iv);
        }
        i = i + 1;
    }
    proof {
        assert(input.subrange(0, n as int) =~= input);
        lemma_valid_only_all_valid(input);
        lemma_valid_only_covers(input);
    }
    *intervals = kept;
    sort_by_start(intervals);
    let ghost sorted = intervals@;
    proof {
        lemma_same_multiset_covers(sorted, valid_only(input));
        assert forall|k: int| 0 <= k < sorted.len() implies #[trigger] is_valid(sorted[k]) by {
            assert(sorted.contains(sorted[k]));
            assert(sorted.to_multiset().count(sorted[k]) > 0);
            assert(valid_only(input).to_multiset().count(sorted[k]) > 0);
            let j = choose|j: int|
                0 <= j < valid_only(input).len() && valid_only(input)[j] == sorted[k];
            assert(is_valid(valid_only(input)[j]));
        }
    }

    let mut merged: Vec<Interval> = Vec::new();
    let m = intervals.len();
    let mut j: usize = 0;
    while j < m
        invariant
            j <= m,
            m == intervals.len(),
            intervals@ == sorted,
            sorted_by_start(sorted),
            forall|k: int| 0 <= k < sorted.len() ==> #[trigger] is_valid(sorted[k]),
            is_normalized(merged@),
            same_coverage(merged@, sorted.subrange(0, j as int)),
            j == 0 ==> merged.len() == 0,
            j > 0 ==> merged.len() > 0 && merged@.last().start <= sorted[j - 1].start,
        decreases m - j,
    {
        let cur = intervals[j];
        let ghost before = merged@;
        proof {
            assert(sorted.subrange(0, j + 1) =~= sorted.subrange(0, j as int).push(cur));
            lemma_covers_push(sorted.subrange(0, j as int), cur);
            assert(is_valid(sorted[j as int]));
        }
        if merged.len() == 0 {
            merged.push(cur);
            proof {
                lemma_covers_push(before, cur);
            }
        } else {
            let li = merged.len() - 1;
            let last = merged[li];
            if cur.start <= last.end {
                proof {
                    assert(last.start <= sorted[j - 1].start);
                    assert(sorted[j - 1].start <= sorted[j as int].start);
                    lemma_covers_extend_last(before, cur);
                }
                if cur.end > last.end {
                    merged.set(li, Interval { start: last.start, end: cur.end });
                    proof {
                        assert(merged@ =~= extend_last(before, cur));
                    }
                } else {
                    proof {
                        assert(before =~= extend_last(before, cur));
                    }
                }
                proof {
                    assert(is_valid(before[li as int]));
                    assert forall|k: int| 0 <= k < merged@.len() implies #[trigger] is_valid(
                        merged@[k],
                    ) by {
                        assert(is_valid(before[k]));
                    }
                    assert forall|k: int| 0 <= k < merged@.len() - 1 implies #[trigger] merged@[k].end
                        < merged@[k + 1].start by {
                        assert(before[k].end < before[k + 1].start);
                    }
                }
            } else {
                merged.push(cur);
                proof {
                    lemma_covers_push(before, cur);
                    assert forall|k: int| 0 <= k < merged@.len() implies #[trigger] is_valid(
                        merged@[k],
                    ) by {
                        if k < before.len() {
                            assert(is_valid(before[k]));
                        }
                    }
                    assert forall|k: int| 0 <= k < merged@.len() - 1 implies #[trigger] merged@[k].end
                        < merged@[k + 1].start by {
                        if k < before.len() - 1 {
                            assert(before[k].end < before[k + 1].start);
                        }
                    }
                }
            }
        }
        j = j + 1;
    }
    proof {
        assert(sorted.subrange(0, m as int) =~= sorted);
        assert forall|t: int| #[trigger] covers(merged@, t) == covers(input, t) by {
            assert(covers(merged@, t) == covers(sorted, t));
            assert(covers(sorted, t) == covers(valid_only(input), t));
            assert(covers(valid_only(input), t) == covers(input, t));
        }
    }
    merged
}

/// Merging is idempotent: merging the result of a merge gives that result back.
pub proof fn lemma_merge_idempotent(x: Seq<Interval>, once: Seq<Interval>, twice: Seq<Interval>)
    requires
        is_merge_of(x, once),
        is_merge_of(once, twice),
    ensures
        twice == once,
{
    assert(same_coverage(twice, once));
    lemma_normalized_unique(twice, once);
}

/// A merge result is sorted by start, and each of its intervals ends strictly before the
/// next one starts.
pub proof fn lemma_merge_disjoint(x: Seq<Interval>, r: Seq<Interval>, i: int, j: int)
    requires
        is_merge_of(x, r),
        0 <= i < j < r.len(),
    ensures
        r[i].start < r[j].start,
        r[i].end < r[j].start,
{
    lemma_normalized_order(r, i, j);
    assert(is_valid(r[i]));
}

/// Invalid input intervals leave no trace in a merge result: each result interval is
/// valid, and each tick it holds lies in some valid input interval.
pub proof fn lemma_merge_drops_invalid(x: Seq<Interval>, r: Seq<Interval>, k: int, t: int)
    requires
        is_merge_of(x, r),
        0 <= k < r.len(),
        contains_point(r[k], t),
    ensures
        is_valid(r[k]),
        exists|i: int| 0 <= i < x.len() && is_valid(x[i]) && #[trigger] contains_point(x[i], t),
{
    assert(covers(r, t));
    assert(covers(x, t));
}

} // verus!
