use vstd::prelude::*;
use std::collections::BTreeMap;
use crate::interval::{
    contains_point, covers, is_merge_of, is_normalized, is_valid, lemma_covers_push,
    lemma_normalized_order, lemma_normalized_unique, merge_intervals, same_coverage,
};
use crate::types::{ChargerId, ChargerReport, Interval, Station, StationId, stations_view};

verus! {

broadcast use vstd::std_specs::btree::group_btree_axioms, vstd::laws_cmp::group_laws_cmp,
    vstd::seq_lib::group_to_multiset_ensures;

/// Failure of the uptime computation.
#[derive(Clone, Copy, Debug, PartialEq, Eq, Structural)]
pub enum UptimeError {
    /// The station's chargers reported no time at all.
    NoReporting(StationId),
}

/// The reports about charger `c`, in their order.
pub open spec fn reports_for(reports: Seq<ChargerReport>, c: ChargerId) -> Seq<ChargerReport>
    decreases reports.len(),
{
    if reports.len() == 0 {
        Seq::empty()
    } else if reports.last().charger == c {
        reports_for(reports.drop_last(), c).push(reports.last())
    } else {
        reports_for(reports.drop_last(), c)
    }
}

/// Earliest start among non-empty `rs`.
pub open spec fn span_start(rs: Seq<ChargerReport>) -> u64
    decreases rs.len(),
{
    if rs.len() <= 1 {
        rs[0].interval.start
    } else if rs.last().interval.start < span_start(rs.drop_last()) {
        rs.last().interval.start
    } else {
        span_start(rs.drop_last())
    }
}

/// Latest end among non-empty `rs`.
pub open spec fn span_end(rs: Seq<ChargerReport>) -> u64
    decreases rs.len(),
{
    if rs.len() <= 1 {
        rs[0].interval.end
    } else if rs.last().interval.end > span_end(rs.drop_last()) {
        rs.last().interval.end
    } else {
        span_end(rs.drop_last())
    }
}

/// The intervals of the reports marked up, in their order.
pub open spec fn up_intervals(rs: Seq<ChargerReport>) -> Seq<Interval>
    decreases rs.len(),
{
    if rs.len() == 0 {
        Seq::empty()
    } else if rs.last().up {
        up_intervals(rs.drop_last()).push(rs.last().interval)
    } else {
        up_intervals(rs.drop_last())
    }
}

/// For each charger with reports, its reporting span `[earliest start, latest end)`,
/// when that span is not empty.
pub open spec fn station_spans(chargers: Seq<ChargerId>, reports: Seq<ChargerReport>) -> Seq<
    Interval,
>
    decreases chargers.len(),
{
    if chargers.len() == 0 {
        Seq::empty()
    } else {
        let rs = reports_for(reports, chargers.last());
        let p = station_spans(chargers.drop_last(), reports);
        if rs.len() > 0 && span_start(rs) < span_end(rs) {
            p.push(Interval { start: span_start(rs), end: span_end(rs) })
        } else {
            p
        }
    }
}

/// Every up interval reported by the chargers, charger by charger.
pub open spec fn station_ups(chargers: Seq<ChargerId>, reports: Seq<ChargerReport>) -> Seq<
    Interval,
>
    decreases chargers.len(),
{
    if chargers.len() == 0 {
        Seq::empty()
    } else {
        station_ups(chargers.drop_last(), reports) + up_intervals(
            reports_for(reports, chargers.last()),
        )
    }
}

/// Summed length of the intervals.
pub open spec fn total_length(s: Seq<Interval>) -> int
    decreases s.len(),
{
    if s.len() == 0 {
        0
    } else {
        total_length(s.drop_last()) + (s.last().end - s.last().start)
    }
}

/// Number of ticks the intervals cover together: the length of their merged form.
pub open spec fn union_length(s: Seq<Interval>) -> int {
    total_length(choose|m: Seq<Interval>| is_merge_of(s, m))
}

/// Ticks during which some charger of the station was reporting.
pub open spec fn reported_time(chargers: Seq<ChargerId>, reports: Seq<ChargerReport>) -> int {
    union_length(station_spans(chargers, reports))
}

/// Ticks during which some charger of the station was reported up.
pub open spec fn up_time(chargers: Seq<ChargerId>, reports: Seq<ChargerReport>) -> int {
    union_length(station_ups(chargers, reports))
}

/// The station's uptime percentage, rounded down.
pub open spec fn uptime_percent(chargers: Seq<ChargerId>, reports: Seq<ChargerReport>) -> u8 {
    (100 * up_time(chargers, reports) / reported_time(chargers, reports)) as u8
}

/// Each station paired with its uptime percentage, in the stations' order.
pub open spec fn station_results(
    stations: Seq<(StationId, Seq<ChargerId>)>,
    reports: Seq<ChargerReport>,
) -> Seq<(StationId, u8)> {
    stations.map_values(|st: (StationId, Seq<ChargerId>)| (st.0, uptime_percent(st.1, reports)))
}

proof fn lemma_union_length(s: Seq<Interval>, m: Seq<Interval>)
    requires
        is_merge_of(s, m),
    ensures
        union_length(s) == total_length(m),
{
    let c = choose|c: Seq<Interval>| is_merge_of(s, c);
    assert(is_merge_of(s, c));
    assert(same_coverage(c, m)) by {
        assert forall|t: int| #[trigger] crate::interval::covers(c, t)
            == crate::interval::covers(m, t) by {
            assert(crate::interval::covers(c, t) == crate::interval::covers(s, t));
            assert(crate::interval::covers(m, t) == crate::interval::covers(s, t));
        }
    }
    lemma_normalized_unique(c, m);
}

proof fn lemma_total_length_bound(s: Seq<Interval>)
    requires
        is_normalized(s),
        s.len() > 0,
    ensures
        0 <= total_length(s) <= s.last().end - s[0].start,
    decreases s.len(),
{
    assert(is_valid(s.last()));
    if s.len() > 1 {
        let p = s.drop_last();
        assert(is_normalized(p)) by {
            assert forall|k: int| 0 <= k < p.len() implies #[trigger] is_valid(p[k]) by {
                assert(is_valid(s[k]));
            }
            assert forall|k: int| 0 <= k < p.len() - 1 implies #[trigger] p[k].end < p[k
                + 1].start by {
                assert(s[k].end < s[k + 1].start);
            }
        }
        lemma_total_length_bound(p);
        assert(s[s.len() - 2].end < s[s.len() - 2 + 1].start);
        assert(p.last() == s[s.len() - 2]);
        assert(p[0] == s[0]);
    } else {
        assert(total_length(s.drop_last()) == 0);
    }
}

proof fn lemma_total_length_prefix(s: Seq<Interval>, k: int)
    requires
        0 <= k <= s.len(),
        forall|i: int| 0 <= i < s.len() ==> #[trigger] is_valid(s[i]),
    ensures
        total_length(s.subrange(0, k)) <= total_length(s),
    decreases s.len(),
{
    if k < s.len() {
        let p = s.drop_last();
        assert(p.subrange(0, k) =~= s.subrange(0, k));
        assert forall|i: int| 0 <= i < p.len() implies #[trigger] is_valid(p[i]) by {
            assert(is_valid(s[i]));
        }
        lemma_total_length_prefix(p, k);
        assert(is_valid(s[s.len() - 1]));
    } else {
        assert(s.subrange(0, k) =~= s);
    }
}

/// A normalized interval sequence whose ticks all lie in another normalized sequence is
/// no longer in total than that one.
proof fn lemma_total_length_monotone(a: Seq<Interval>, b: Seq<Interval>)
    requires
        is_normalized(a),
        is_normalized(b),
        forall|t: int| #[trigger] covers(a, t) ==> covers(b, t),
    ensures
        total_length(a) <= total_length(b),
    decreases a.len(),
{
    if a.len() > 0 {
        let x = a.last();
        let ap = a.drop_last();
        assert(is_valid(x));
        assert(contains_point(a[a.len() - 1], x.start as int));
        assert(covers(a, x.start as int));
        let k = choose|k: int| 0 <= k < b.len() && #[trigger] contains_point(b[k], x.start as int);
        assert(is_valid(b[k]));
        // x lies inside b[k]
        if x.end > b[k].end {
            let p = b[k].end as int;
            assert(contains_point(a[a.len() - 1], p));
            assert(covers(a, p));
            let j = choose|j: int| 0 <= j < b.len() && #[trigger] contains_point(b[j], p);
            if j < k {
                lemma_normalized_order(b, j, k);
            } else if j > k {
                lemma_normalized_order(b, k, j);
            }
            assert(false);
        }
        let bp = b.subrange(0, k);
        let head = if b[k].start < x.start {
            bp.push(Interval { start: b[k].start, end: x.start })
        } else {
            bp
        };
        assert(is_normalized(bp)) by {
            assert forall|i: int| 0 <= i < bp.len() implies #[trigger] is_valid(bp[i]) by {
                assert(is_valid(b[i]));
            }
            assert forall|i: int| 0 <= i < bp.len() - 1 implies #[trigger] bp[i].end < bp[i
                + 1].start by {
                assert(b[i].end < b[i + 1].start);
            }
        }
        assert(is_normalized(head)) by {
            if b[k].start < x.start {
                assert forall|i: int| 0 <= i < head.len() implies #[trigger] is_valid(head[i]) by {
                    if i < bp.len() {
                        assert(is_valid(bp[i]));
                    }
                }
                assert forall|i: int| 0 <= i < head.len() - 1 implies #[trigger] head[i].end
                    < head[i + 1].start by {
                    if i < bp.len() - 1 {
                        assert(bp[i].end < bp[i + 1].start);
                    } else {
                        assert(b[k - 1].end < b[k - 1 + 1].start);
                    }
                }
            }
        }
        assert(is_normalized(ap)) by {
            assert forall|i: int| 0 <= i < ap.len() implies #[trigger] is_valid(ap[i]) by {
                assert(is_valid(a[i]));
            }
            assert forall|i: int| 0 <= i < ap.len() - 1 implies #[trigger] ap[i].end < ap[i
                + 1].start by {
                assert(a[i].end < a[i + 1].start);
            }
        }
        assert forall|t: int| #[trigger] covers(ap, t) implies covers(head, t) by {
            let i = choose|i: int| 0 <= i < ap.len() && #[trigger] contains_point(ap[i], t);
            assert(contains_point(a[i], t));
            lemma_normalized_order(a, i, a.len() - 1);
            assert(covers(a, t));
            let j = choose|j: int| 0 <= j < b.len() && #[trigger] contains_point(b[j], t);
            if j > k {
                lemma_normalized_order(b, k, j);
                assert(false);
            } else if j < k {
                assert(contains_point(head[j], t));
            } else {
                assert(contains_point(head[bp.len() as int], t));
            }
        }
        lemma_total_length_monotone(ap, head);
        assert(b.subrange(0, k + 1).drop_last() =~= bp);
        assert(total_length(b.subrange(0, k + 1)) == total_length(bp) + (b[k].end - b[k].start));
        if b[k].start < x.start {
            assert(head.drop_last() =~= bp);
            assert(total_length(head) == total_length(bp) + (x.start - b[k].start));
        } else {
            assert(total_length(head) == total_length(bp));
        }
        assert(total_length(a) == total_length(ap) + (x.end - x.start));
        assert(x.end <= b[k].end);
        assert forall|i: int| 0 <= i < b.len() implies #[trigger] is_valid(b[i]) by {}
        lemma_total_length_prefix(b, k + 1);
    } else {
        assert forall|i: int| 0 <= i < b.len() implies #[trigger] is_valid(b[i]) by {}
        lemma_total_length_prefix(b, 0);
        assert(b.subrange(0, 0) =~= Seq::<Interval>::empty());
    }
}

/// Every up interval of a charger lies inside that charger's reporting span.
proof fn lemma_up_within_span(rs: Seq<ChargerReport>, t: int)
    requires
        covers(up_intervals(rs), t),
    ensures
        rs.len() > 0,
        span_start(rs) <= t < span_end(rs),
    decreases rs.len(),
{
    let p = rs.drop_last();
    if rs.len() == 0 {
        assert(false);
    }
    if rs.last().up {
        lemma_covers_push(up_intervals(p), rs.last().interval);
    }
    if covers(up_intervals(p), t) {
        lemma_up_within_span(p, t);
    } else {
        assert(contains_point(rs.last().interval, t));
        if rs.len() > 1 {
            lemma_up_within_span_last(rs);
        }
    }
}

proof fn lemma_up_within_span_last(rs: Seq<ChargerReport>)
    requires
        rs.len() > 0,
    ensures
        span_start(rs) <= rs.last().interval.start,
        span_end(rs) >= rs.last().interval.end,
{
}

proof fn lemma_covers_concat(x: Seq<Interval>, y: Seq<Interval>, t: int)
    ensures
        covers(x + y, t) == (covers(x, t) || covers(y, t)),
{
    let z = x + y;
    if covers(z, t) {
        let k = choose|k: int| 0 <= k < z.len() && #[trigger] contains_point(z[k], t);
        if k < x.len() {
            assert(contains_point(x[k], t));
        } else {
            assert(contains_point(y[k - x.len()], t));
        }
    }
    if covers(x, t) {
        let k = choose|k: int| 0 <= k < x.len() && #[trigger] contains_point(x[k], t);
        assert(contains_point(z[k], t));
    }
    if covers(y, t) {
        let k = choose|k: int| 0 <= k < y.len() && #[trigger] contains_point(y[k], t);
        assert(contains_point(z[k + x.len()], t));
    }
}

/// Each tick at which a station's charger was reported up lies in one of its reporting spans.
proof fn lemma_ups_within_spans(chargers: Seq<ChargerId>, reports: Seq<ChargerReport>, t: int)
    requires
        covers(station_ups(chargers, reports), t),
    ensures
        covers(station_spans(chargers, reports), t),
    decreases chargers.len(),
{
    let cp = chargers.drop_last();
    let rs = reports_for(reports, chargers.last());
    lemma_covers_concat(station_ups(cp, reports), up_intervals(rs), t);
    if covers(station_ups(cp, reports), t) {
        lemma_ups_within_spans(cp, reports, t);
        if rs.len() > 0 && span_start(rs) < span_end(rs) {
            lemma_covers_push(
                station_spans(cp, reports),
                Interval { start: span_start(rs), end: span_end(rs) },
            );
        }
    } else {
        lemma_up_within_span(rs, t);
        lemma_covers_push(
            station_spans(cp, reports),
            Interval { start: span_start(rs), end: span_end(rs) },
        );
    }
}

/// Summed length of a normalized sequence of intervals.
fn sum_lengths(m: &Vec<Interval>) -> (r: u128)
    requires
        is_normalized(m@),
    ensures
        r == total_length(m@),
        r <= u64::MAX,
{
    let mut acc: u128 = 0;
    let mut i: usize = 0;
    while i < m.len()
        invariant
            i <= m.len(),
            is_normalized(m@),
            acc == total_length(m@.subrange(0, i as int)),
            acc <= u64::MAX,
        decreases m.len() - i,
    {
        let iv = m[i];
        proof {
            let p = m@.subrange(0, i + 1);
            assert(p.drop_last() =~= m@.subrange(0, i as int));
            assert(is_normalized(p)) by {
                assert forall|k: int| 0 <= k < p.len() implies #[trigger] is_valid(p[k]) by {
                    assert(is_valid(m@[k]));
                }
                assert forall|k: int| 0 <= k < p.len() - 1 implies #[trigger] p[k].end < p[k
                    + 1].start by {
                    assert(m@[k].end < m@[k + 1].start);
                }
            }
            lemma_total_length_bound(p);
            assert(is_valid(m@[i as int]));
        }
        acc = acc + (iv.end - iv.start) as u128;
        i = i + 1;
    }
    proof {
        assert(m@.subrange(0, m.len() as int) =~= m@);
    }
    acc
}

/// The reports grouped by charger identifier, each group in report order.
fn group_reports(reports: &[ChargerReport]) -> (m: BTreeMap<u32, Vec<ChargerReport>>)
    ensures
        forall|k: u32|
            #![trigger m@.contains_key(k)]
            #![trigger reports_for(reports@, ChargerId(k))]
            (m@.contains_key(k) <==> reports_for(reports@, ChargerId(k)).len() > 0) && (
            m@.contains_key(k) ==> m@[k]@ == reports_for(reports@, ChargerId(k))),
{
    let mut m: BTreeMap<u32, Vec<ChargerReport>> = BTreeMap::new();
    let mut i: usize = 0;
    while i < reports.len()
        invariant
            i <= reports.len(),
            forall|k: u32|
                #![trigger m@.contains_key(k)]
                #![trigger reports_for(reports@.subrange(0, i as int), ChargerId(k))]
                (m@.contains_key(k) <==> reports_for(reports@.subrange(0, i as int), ChargerId(k)).len()
                    > 0) && (m@.contains_key(k) ==> m@[k]@ == reports_for(
                    reports@.subrange(0, i as int),
                    ChargerId(k),
                )),
        decreases reports.len() - i,
    {
        let r = reports[i];
        let c = r.charger.0;
        let ghost before = m@;
        let ghost prev = reports@.subrange(0, i as int);
        let ghost next = reports@.subrange(0, i + 1);
        proof {
            assert(next.drop_last() =~= prev);
            assert(next.last() == r);
        }
        match m.remove(&c) {
            Some(mut v) => {
                v.push(r);
                m.insert(c, v);
            },
            None => {
                let mut v: Vec<ChargerReport> = Vec::new();
                v.push(r);
                m.insert(c, v);
                proof {
                    assert(reports_for(prev, ChargerId(c)).len() == 0);
                    assert(reports_for(prev, ChargerId(c)) =~= Seq::<ChargerReport>::empty());
                }
            },
        }
        proof {
            assert forall|k: u32|
                #![trigger m@.contains_key(k)]
                #![trigger reports_for(next, ChargerId(k))]
                (m@.contains_key(k) <==> reports_for(next, ChargerId(k)).len() > 0) && (
                m@.contains_key(k) ==> m@[k]@ == reports_for(next, ChargerId(k))) by {
                if k != c {
                    assert(ChargerId(k) != r.charger);
                    assert(reports_for(next, ChargerId(k)) == reports_for(prev, ChargerId(k)));
                    assert(before.contains_key(k) == m@.contains_key(k));
                } else {
                    assert(ChargerId(k) == r.charger);
                }
            }
        }
        i = i + 1;
    }
    proof {
        assert(reports@.subrange(0, reports.len() as int) =~= reports@);
    }
    m
}

/// Earliest start and latest end over a non-empty list of reports.
fn charger_span(list: &Vec<ChargerReport>) -> (r: (u64, u64))
    requires
        list.len() > 0,
    ensures
        r.0 == span_start(list@),
        r.1 == span_end(list@),
{
    let mut s = list[0].interval.start;
    let mut e = list[0].interval.end;
    let mut i: usize = 1;
    while i < list.len()
        invariant
            1 <= i <= list.len(),
            s == span_start(list@.subrange(0, i as int)),
            e == span_end(list@.subrange(0, i as int)),
        decreases list.len() - i,
    {
        proof {
            assert(list@.subrange(0, i + 1).drop_last() =~= list@.subrange(0, i as int));
        }
        let iv = list[i].interval;
        if iv.start < s {
            s = iv.start;
        }
        if iv.end > e {
            e = iv.end;
        }
        i = i + 1;
    }
    proof {
        assert(list@.subrange(0, list.len() as int) =~= list@);
    }
    (s, e)
}

/// Appends the intervals of the reports marked up.
fn push_up_intervals(ups: &mut Vec<Interval>, list: &Vec<ChargerReport>)
    ensures
        final(ups)@ == old(ups)@ + up_intervals(list@),
{
    let ghost start = ups@;
    let mut i: usize = 0;
    while i < list.len()
        invariant
            i <= list.len(),
            ups@ == start + up_intervals(list@.subrange(0, i as int)),
        decreases list.len() - i,
    {
        proof {
            assert(list@.subrange(0, i + 1).drop_last() =~= list@.subrange(0, i as int));
        }
        let r = list[i];
        if r.up {
            ups.push(r.interval);
            proof {
                assert(start + up_intervals(list@.subrange(0, i + 1)) =~= (start + up_intervals(
                    list@.subrange(0, i as int),
                )).push(r.interval));
            }
        }
        i = i + 1;
    }
    proof {
        assert(list@.subrange(0, list.len() as int) =~= list@);
    }
}

/// Relies on `slice::sort_by_key`: the pairs are reordered, none added or lost, so that
/// station identifiers ascend.
#[verifier::external_body]
fn sort_by_station(v: &mut Vec<(StationId, u8)>)
    ensures
        final(v)@.to_multiset() == old(v)@.to_multiset(),
        forall|i: int, j: int|
            0 <= i < j < final(v)@.len() ==> final(v)@[i].0.0 <= final(v)@[j].0.0,
{
    v.sort_by_key(|p| (p.0).0);
}

/// Computes each station's uptime percentage: the ticks during which its chargers were
/// reported up, over the ticks during which they were reporting at all (each counted once
/// however many chargers cover it), times one hundred, rounded down. The pairs come sorted
/// by station identifier. Fails on the first station, in the given order, whose chargers
/// reported no time.
pub fn compute_station_uptime(stations: &[Station], reports: &[ChargerReport]) -> (r: Result<
    Vec<(StationId, u8)>,
    UptimeError,
>)
    ensures
        match r {
            Ok(v) => {
                &&& forall|j: int|
                    0 <= j < stations@.len() ==> #[trigger] reported_time(
                        stations_view(stations@)[j].1,
                        reports@,
                    ) > 0
                &&& v@.to_multiset() == station_results(
                    stations_view(stations@),
                    reports@,
                ).to_multiset()
                &&& forall|j: int|
                    0 <= j < stations@.len() ==> #[trigger] up_time(
                        stations_view(stations@)[j].1,
                        reports@,
                    ) <= reported_time(stations_view(stations@)[j].1, reports@)
                &&& forall|a: int, b: int| 0 <= a < b < v@.len() ==> v@[a].0.0 <= v@[b].0.0
                &&& forall|a: int| 0 <= a < v@.len() ==> #[trigger] v@[a].1 <= 100
            },
            Err(UptimeError::NoReporting(id)) => exists|j: int|
                0 <= j < stations@.len() && #[trigger] reported_time(
                    stations_view(stations@)[j].1,
                    reports@,
                ) == 0 && (forall|l: int|
                    0 <= l < j ==> #[trigger] reported_time(stations_view(stations@)[l].1, reports@)
                        > 0) && id == stations_view(stations@)[j].0,
        },
{
    let groups = group_reports(reports);
    let ghost sv = stations_view(stations@);
    let mut results: Vec<(StationId, u8)> = Vec::new();
    let mut i: usize = 0;
    while i < stations.len()
        invariant
            i <= stations.len(),
            sv == stations_view(stations@),
            forall|k: u32|
                #![trigger groups@.contains_key(k)]
                #![trigger reports_for(reports@, ChargerId(k))]
                (groups@.contains_key(k) <==> reports_for(reports@, ChargerId(k)).len() > 0) && (
                groups@.contains_key(k) ==> groups@[k]@ == reports_for(reports@, ChargerId(k))),
            results@ == station_results(sv, reports@).subrange(0, i as int),
            forall|l: int| 0 <= l < i ==> #[trigger] reported_time(sv[l].1, reports@) > 0,
            forall|l: int|
                0 <= l < i ==> #[trigger] up_time(sv[l].1, reports@) <= reported_time(
                    sv[l].1,
                    reports@,
                ),
            forall|l: int| 0 <= l < i ==> #[trigger] results@[l].1 <= 100,
        decreases stations.len() - i,
    {
        let station = &stations[i];
        let ghost chargers = station.chargers@;
        assert(sv[i as int] == (station.id, chargers));
        let mut spans: Vec<Interval> = Vec::new();
        let mut ups: Vec<Interval> = Vec::new();
        let mut k: usize = 0;
        while k < station.chargers.len()
            invariant
                k <= chargers.len(),
                chargers == station.chargers@,
                forall|key: u32|
                    #![trigger groups@.contains_key(key)]
                    #![trigger reports_for(reports@, ChargerId(key))]
                    (groups@.contains_key(key) <==> reports_for(reports@, ChargerId(key)).len() > 0)
                        && (groups@.contains_key(key) ==> groups@[key]@ == reports_for(
                        reports@,
                        ChargerId(key),
                    )),
                spans@ == station_spans(chargers.subrange(0, k as int), reports@),
                ups@ == station_ups(chargers.subrange(0, k as int), reports@),
            decreases chargers.len() - k,
        {
            let c = station.chargers[k];
            let ghost cs = chargers.subrange(0, k + 1);
            proof {
                assert(cs.drop_last() =~= chargers.subrange(0, k as int));
                assert(cs.last() == c);
                assert(ChargerId(c.0) == c);
            }
            match groups.get(&c.0) {
                Some(list) => {
                    let (s, e) = charger_span(list);
                    if s < e {
                        spans.push(Interval { start: s, end: e });
                    }
                    push_up_intervals(&mut ups, list);
                },
                None => {
                    proof {
                        assert(reports_for(reports@, c) =~= Seq::<ChargerReport>::empty());
                        assert(ups@ + up_intervals(reports_for(reports@, c)) =~= ups@);
                    }
                },
            }
            k = k + 1;
        }
        proof {
            assert(chargers.subrange(0, chargers.len() as int) =~= chargers);
        }
        let merged_spans = merge_intervals(&mut spans);
        let merged_ups = merge_intervals(&mut ups);
        let reported = sum_lengths(&merged_spans);
        let up = sum_lengths(&merged_ups);
        proof {
            lemma_union_length(station_spans(chargers, reports@), merged_spans@);
            lemma_union_length(station_ups(chargers, reports@), merged_ups@);
            assert forall|t: int| #[trigger] covers(merged_ups@, t) implies covers(
                merged_spans@,
                t,
            ) by {
                assert(covers(station_ups(chargers, reports@), t));
                lemma_ups_within_spans(chargers, reports@, t);
                assert(covers(station_spans(chargers, reports@), t));
            }
            lemma_total_length_monotone(merged_ups@, merged_spans@);
        }
        if reported == 0 {
            proof {
                assert(reported_time(stations_view(stations@)[i as int].1, reports@) == 0);
            }
            return Err(UptimeError::NoReporting(station.id));
        }
        let percent = (up * 100 / reported) as u8;
        proof {
            let (u, d) = (up as int, reported as int);
            assert(u * 100 / d <= 100) by (nonlinear_arith)
                requires
                    u <= d,
                    d > 0,
            ;
        }
        results.push((station.id, percent));
        proof {
            assert(results@ =~= station_results(sv, reports@).subrange(0, i + 1));
        }
        i = i + 1;
    }
    proof {
        assert(station_results(sv, reports@).subrange(0, stations.len() as int) =~= station_results(
            sv,
            reports@,
        ));
    }
    let ghost unsorted = results@;
    sort_by_station(&mut results);
    proof {
        assert forall|a: int| 0 <= a < results@.len() implies #[trigger] results@[a].1 <= 100 by {
            assert(results@.contains(results@[a]));
            assert(results@.to_multiset().count(results@[a]) > 0);
            assert(unsorted.to_multiset().count(results@[a]) > 0);
            let j = choose|j: int| 0 <= j < unsorted.len() && unsorted[j] == results@[a];
            assert(unsorted[j].1 <= 100);
        }
    }
    Ok(results)
}

} // verus!
