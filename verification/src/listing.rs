//! Summaries of imported observation bundles and bounded windows over their records.
use crate::model::texts;
use crate::observation::{
    copy_events, copy_texts, same_stream, ArtifactIdentity, ObservationBundle, TestObservation,
    TraceEvent, TraceStream,
};
use crate::text::{byte_texts, insert_sorted, strictly_sorted, text_bytes};
use crate::trace::total_events;
use vstd::prelude::*;

verus! {

/// What a stored bundle holds, without its records.
#[derive(Debug)]
pub struct ObservationSummary {
    pub id: String,
    pub snapshot_id: String,
    pub artifact: ArtifactIdentity,
    pub test_count: u32,
    pub event_count: u32,
    pub clock_domains: Vec<String>,
    pub limitations: Vec<String>,
}

/// A bounded window over a bundle's records: test records first, then each stream's
/// events in stream order, numbered consecutively from zero.
#[derive(Debug)]
pub struct ObservationWindow {
    pub summary: ObservationSummary,
    pub tests: Vec<TestObservation>,
    pub streams: Vec<TraceStream>,
    pub offset: u32,
    pub next_offset: Option<u32>,
    pub truncated: bool,
}

/// The two limitations every summary adds to a bundle's own.
pub open spec fn summary_limitations() -> Seq<Seq<char>> {
    seq![
        "Imported run observations are not exhaustive behavior or static call-resolution evidence."@,
        "Cross-stream clock order and causal links are not inferred."@,
    ]
}

/// The distinct clock domains of a list of streams, as bytes.
pub open spec fn clock_domains_of(streams: Seq<TraceStream>) -> Set<Seq<u8>> {
    Set::new(
        |d: Seq<u8>| exists|i: int| 0 <= i < streams.len() && text_bytes(#[trigger] streams[i].clock_domain) == d,
    )
}

/// Equal test records.
pub open spec fn same_test(a: TestObservation, b: TestObservation) -> bool {
    a.name == b.name && a.outcome == b.outcome && a.elapsed_ns == b.elapsed_ns && a.timeout_ns
        == b.timeout_ns && a.reason == b.reason && a.definition_ids@ == b.definition_ids@
}

/// Summarises a bundle stored under `id`: counts, distinct clock domains in byte order, and
/// its limitations followed by the two that every summary adds.
pub fn summary(id: &str, bundle: &ObservationBundle) -> (r: ObservationSummary)
    requires
        bundle.tests@.len() <= u32::MAX,
        total_events(bundle.streams@) <= u32::MAX,
    ensures
        r.id@ == id@,
        r.snapshot_id == bundle.snapshot_id,
        r.artifact == bundle.artifact,
        r.test_count == bundle.tests@.len(),
        r.event_count == total_events(bundle.streams@),
        strictly_sorted(r.clock_domains@),
        byte_texts(r.clock_domains@).to_set() == clock_domains_of(bundle.streams@),
        texts(r.limitations@) == texts(bundle.limitations@) + summary_limitations(),
{
    let mut limitations = copy_texts(&bundle.limitations);
    let ghost own = texts(limitations@);
    limitations.push(
        "Imported run observations are not exhaustive behavior or static call-resolution evidence.".to_string(),
    );
    limitations.push("Cross-stream clock order and causal links are not inferred.".to_string());
    proof {
        assert(texts(limitations@) =~= own + summary_limitations());
    }
    let streams = &bundle.streams;
    let mut domains: Vec<String> = Vec::new();
    let mut events: u32 = 0;
    let mut i: usize = 0;
    proof {
        assert(byte_texts(domains@).to_set() =~= clock_domains_of(streams@.take(0)));
    }
    while i < streams.len()
        invariant
            i <= streams@.len(),
            streams@ == bundle.streams@,
            total_events(streams@) <= u32::MAX,
            events as nat == total_events(streams@.take(i as int)),
            strictly_sorted(domains@),
            byte_texts(domains@).to_set() == clock_domains_of(streams@.take(i as int)),
        decreases streams.len() - i,
    {
        proof {
            assert(streams@.take(i as int + 1).drop_last() =~= streams@.take(i as int));
            assert(streams@.take(i as int + 1).last() == streams@[i as int]);
            crate::trace::lemma_total_events_prefix(streams@, i as int + 1);
        }
        events = events + streams[i].events.len() as u32;
        let ghost before = byte_texts(domains@).to_set();
        insert_sorted(&mut domains, streams[i].clock_domain.clone());
        proof {
            let next = streams@.take(i as int + 1);
            assert forall|d: Seq<u8>| #[trigger] clock_domains_of(next).contains(d) <==> (
            clock_domains_of(streams@.take(i as int)).contains(d) || d == text_bytes(
                streams@[i as int].clock_domain,
            )) by {
                if clock_domains_of(next).contains(d) {
                    let k = choose|k: int| 0 <= k < next.len() && text_bytes(#[trigger] next[k].clock_domain) == d;
                    if k < i {
                        assert(streams@.take(i as int)[k] == next[k]);
                    }
                }
                if clock_domains_of(streams@.take(i as int)).contains(d) {
                    let k = choose|k: int|
                        0 <= k < i && text_bytes(#[trigger] streams@.take(i as int)[k].clock_domain)
                            == d;
                    assert(next[k] == streams@.take(i as int)[k]);
                }
                if d == text_bytes(streams@[i as int].clock_domain) {
                    assert(next[i as int] == streams@[i as int]);
                }
            }
            assert(byte_texts(domains@).to_set() =~= clock_domains_of(next));
        }
        i += 1;
    }
    proof {
        assert(streams@.take(i as int) =~= streams@);
    }
    ObservationSummary {
        id: id.to_string(),
        snapshot_id: bundle.snapshot_id.clone(),
        artifact: bundle.artifact.clone(),
        test_count: bundle.tests.len() as u32,
        event_count: events,
        clock_domains: domains,
        limitations,
    }
}

/// `x` clamped into `lo..=hi`.
pub open spec fn clamp(x: int, lo: int, hi: int) -> int {
    if x < lo {
        lo
    } else if x > hi {
        hi
    } else {
        x
    }
}

/// Events of a stream whose first event has record number `base` that fall in the record
/// range `start..end`.
pub open spec fn events_in(events: Seq<TraceEvent>, base: int, start: int, end: int) -> Seq<
    TraceEvent,
> {
    events.subrange(clamp(start - base, 0, events.len() as int), clamp(end - base, clamp(start - base, 0, events.len() as int), events.len() as int))
}

/// Whether `w` is stream `s` restricted to its events in the record range `start..end`,
/// its first event having record number `base`.
pub open spec fn restricted(w: TraceStream, s: TraceStream, base: int, start: int, end: int) -> bool {
    &&& w.id == s.id
    &&& w.process_or_device == s.process_or_device
    &&& w.thread_or_hart == s.thread_or_hart
    &&& w.clock_domain == s.clock_domain
    &&& w.timestamp_unit == s.timestamp_unit
    &&& w.events@ == events_in(s.events@, base, start, end)
}

/// Whether `kept` holds, in order, each of the first `k` streams restricted to the record
/// range `start..end`, skipping those with no event in it.
pub open spec fn kept_matches(
    kept: Seq<TraceStream>,
    streams: Seq<TraceStream>,
    k: int,
    tests: int,
    start: int,
    end: int,
) -> bool {
    &&& kept.len() == kept_streams(streams.take(k), tests, start, end).len()
    &&& forall|m: int|
        0 <= m < kept.len() ==> {
            &&& 0 <= #[trigger] kept_streams(streams.take(k), tests, start, end)[m] < k
            &&& restricted(
                kept[m],
                streams[kept_streams(streams.take(k), tests, start, end)[m]],
                tests + total_events(
                    streams.take(kept_streams(streams.take(k), tests, start, end)[m]),
                ),
                start,
                end,
            )
        }
}

/// Positions of the streams that have events in the record range `start..end`, in order,
/// given that stream `k`'s first event has record number `tests + total_events(streams.take(k))`.
pub open spec fn kept_streams(streams: Seq<TraceStream>, tests: int, start: int, end: int) -> Seq<int>
    decreases streams.len(),
{
    if streams.len() == 0 {
        seq![]
    } else {
        let k = streams.len() - 1;
        let prior = kept_streams(streams.drop_last(), tests, start, end);
        if events_in(streams[k].events@, tests + total_events(streams.drop_last()), start, end).len()
            > 0 {
            prior.push(k)
        } else {
            prior
        }
    }
}

/// The record range that a window request selects, and whether it is accepted.
pub open spec fn window_end(total: int, start: int, limit: int) -> int {
    if start + limit < total {
        start + limit
    } else {
        total
    }
}

/// Stream `s` restricted to its events in the record range `start..end`, its first event
/// having record number `base`.
fn restrict_stream(s: &TraceStream, base: u64, start: u64, end: u64) -> (r: TraceStream)
    requires
        start <= end,
    ensures
        restricted(r, *s, base as int, start as int, end as int),
{
    let n = s.events.len();
    let lo: usize = if start <= base {
        0
    } else if start - base > n as u64 {
        n
    } else {
        (start - base) as usize
    };
    let hi: usize = if end <= base {
        lo
    } else if end - base > n as u64 {
        n
    } else if ((end - base) as usize) < lo {
        lo
    } else {
        (end - base) as usize
    };
    let mut events: Vec<TraceEvent> = Vec::new();
    let mut e = lo;
    while e < hi
        invariant
            lo <= e <= hi <= n,
            n == s.events@.len(),
            events@ == s.events@.subrange(lo as int, e as int),
        decreases hi - e,
    {
        events.push(s.events[e].clone());
        proof {
            assert(events@ =~= s.events@.subrange(lo as int, e + 1));
        }
        e += 1;
    }
    proof {
        assert(events@ =~= events_in(s.events@, base as int, start as int, end as int));
    }
    TraceStream {
        id: s.id.clone(),
        process_or_device: s.process_or_device.clone(),
        thread_or_hart: s.thread_or_hart.clone(),
        clock_domain: s.clock_domain.clone(),
        timestamp_unit: s.timestamp_unit.clone(),
        events,
    }
}

/// Selects records `offset..offset + limit` of `bundle` (stored under `id`): the test
/// records and, per stream, the events in that range, keeping only streams with some. The
/// limit must be 1 to 200 and the offset at most the number of records.
pub fn window(bundle: &ObservationBundle, id: &str, offset: u32, limit: u32) -> (r: Result<
    ObservationWindow,
    String,
>)
    requires
        bundle.tests@.len() <= u32::MAX,
        total_events(bundle.streams@) <= u32::MAX,
    ensures
        ({
            let total = (bundle.tests@.len() + total_events(bundle.streams@)) as int;
            let end = window_end(total, offset as int, limit as int);
            let kept = kept_streams(bundle.streams@, bundle.tests@.len() as int, offset as int, end);
            match r {
                Err(m) => if !(1 <= limit <= 200) {
                    m@ == "observation window limit must be 1-200"@
                } else {
                    offset > total && m@ == "observation offset out of range"@
                },
                Ok(w) => {
                    &&& 1 <= limit <= 200 && offset <= total
                    &&& w.summary.id@ == id@
                    &&& w.summary.test_count == bundle.tests@.len()
                    &&& w.summary.event_count == total_events(bundle.streams@)
                    &&& w.offset == offset
                    &&& w.truncated == (end < total)
                    &&& w.next_offset == (if end < total {
                        Some(end as u32)
                    } else {
                        None
                    })
                    &&& w.tests@.len() == clamp(end, offset as int, bundle.tests@.len() as int)
                        - clamp(offset as int, 0, bundle.tests@.len() as int)
                    &&& forall|j: int|
                        0 <= j < w.tests@.len() ==> same_test(
                            #[trigger] w.tests@[j],
                            bundle.tests@[offset + j],
                        )
                    &&& w.streams@.len() == kept.len()
                    &&& forall|m: int|
                        0 <= m < kept.len() ==> {
                            let k = kept[m];
                            let s = bundle.streams@[k];
                            &&& (#[trigger] w.streams@[m]).id == s.id
                            &&& w.streams@[m].process_or_device == s.process_or_device
                            &&& w.streams@[m].thread_or_hart == s.thread_or_hart
                            &&& w.streams@[m].clock_domain == s.clock_domain
                            &&& w.streams@[m].timestamp_unit == s.timestamp_unit
                            &&& w.streams@[m].events@ == events_in(
                                s.events@,
                                (bundle.tests@.len() + total_events(bundle.streams@.take(k))) as int,
                                offset as int,
                                end,
                            )
                        }
                },
            }
        }),
{
    if limit < 1 || limit > 200 {
        return Err("observation window limit must be 1-200".to_string());
    }
    let streams = &bundle.streams;
    let mut total_events_count: u64 = 0;
    let mut i: usize = 0;
    while i < streams.len()
        invariant
            i <= streams@.len(),
            streams@ == bundle.streams@,
            total_events(streams@) <= u32::MAX,
            total_events_count as nat == total_events(streams@.take(i as int)),
        decreases streams.len() - i,
    {
        proof {
            assert(streams@.take(i as int + 1).drop_last() =~= streams@.take(i as int));
            assert(streams@.take(i as int + 1).last() == streams@[i as int]);
            crate::trace::lemma_total_events_prefix(streams@, i as int + 1);
        }
        total_events_count = total_events_count + streams[i].events.len() as u64;
        i += 1;
    }
    proof {
        assert(streams@.take(i as int) =~= streams@);
    }
    let test_count = bundle.tests.len();
    let total: u64 = test_count as u64 + total_events_count;
    let start: u64 = offset as u64;
    if start > total {
        return Err("observation offset out of range".to_string());
    }
    let end: u64 = if (limit as u64) < total - start {
        start + limit as u64
    } else {
        total
    };
    let mut tests: Vec<TestObservation> = Vec::new();
    let mut t: usize = 0;
    if start < test_count as u64 {
        t = start as usize;
        while (t as u64) < end && t < test_count
            invariant
                start <= t <= test_count,
                t <= end,
                start <= end,
                test_count == bundle.tests@.len(),
                tests@.len() == t - start,
                forall|j: int| 0 <= j < tests@.len() ==> same_test(#[trigger] tests@[j], bundle.tests@[start + j]),
            decreases test_count - t,
        {
            tests.push(bundle.tests[t].clone());
            t += 1;
        }
    }
    let mut kept: Vec<TraceStream> = Vec::new();
    let mut index: u64 = test_count as u64;
    let mut k: usize = 0;
    while k < streams.len()
        invariant
            k <= streams@.len(),
            streams@ == bundle.streams@,
            index as nat == test_count + total_events(streams@.take(k as int)),
            total_events(streams@) <= u32::MAX,
            test_count <= u32::MAX,
            start <= end,
            kept_matches(kept@, streams@, k as int, test_count as int, start as int, end as int),
        decreases streams.len() - k,
    {
        let s = &streams[k];
        let n = s.events.len();
        let ghost prefix = streams@.take(k as int);
        let ghost next = streams@.take(k as int + 1);
        let ghost ks0 = kept_streams(prefix, test_count as int, start as int, end as int);
        proof {
            assert(next.drop_last() =~= prefix);
            assert(next.last() == streams@[k as int]);
            crate::trace::lemma_total_events_prefix(streams@, k as int + 1);
        }
        let restricted_stream = restrict_stream(s, index, start, end);
        let ghost old_kept = kept@;
        let ghost fresh = restricted_stream;
        proof {
            assert(kept_streams(next, test_count as int, start as int, end as int) == (if fresh.events@.len() > 0 {
                ks0.push(k as int)
            } else {
                ks0
            }));
        }
        if restricted_stream.events.len() > 0 {
            kept.push(restricted_stream);
        }
        index = index + n as u64;
        k += 1;
        proof {
            assert(streams@.take(k as int) == next);
            let ks1 = kept_streams(next, test_count as int, start as int, end as int);
            assert forall|m: int| 0 <= m < kept@.len() implies {
                &&& 0 <= ks1[m] < k
                &&& restricted(
                    #[trigger] kept@[m],
                    streams@[ks1[m]],
                    test_count + total_events(streams@.take(ks1[m])),
                    start as int,
                    end as int,
                )
            } by {
                if m < old_kept.len() {
                    assert(ks1[m] == ks0[m]);
                    assert(kept@[m] == old_kept[m]);
                } else {
                    assert(ks1[m] == k - 1);
                    assert(kept@[m] == fresh);
                }
            }
            assert(kept_streams(streams@.take(k as int), test_count as int, start as int, end as int) == ks1);
            assert(kept@.len() == ks1.len());
            assert(kept_matches(kept@, streams@, k as int, test_count as int, start as int, end as int));
        }
    }
    proof {
        assert(streams@.take(k as int) =~= streams@);
    }
    let next_offset = if end < total {
        Some(end as u32)
    } else {
        None
    };
    Ok(
        ObservationWindow {
            summary: summary(id, bundle),
            tests,
            streams: kept,
            offset,
            next_offset,
            truncated: end < total,
        },
    )
}

} // verus!
