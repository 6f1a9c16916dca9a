//! Alignment of two selected trace windows by a unique producer-supplied correlation anchor.
use crate::control::AnalysisControl;
use crate::decimal::{all_digits, decimal, decimal_chars, decimal_string, digits_value};
use crate::envelope::{invalid, stopped_message, AnalysisEnvelope, AnalysisError};
use crate::model::{
    add_limitation, bump_reason, coverage_view, first_reason, lemma_sort_single, lemma_with_gaps_push, texts,
    with_gap, with_gaps, Coverage,
    ReasonCount, Status, UnknownReason,
};
use crate::observation::{ArtifactIdentity, ObservationBundle, TraceEvent, TraceStream};
use crate::text::{byte_texts, bytes_eq, bytes_of, insert_sorted, strictly_sorted, text_bytes};
use vstd::prelude::*;

verus! {

/// Which stream windows to compare and how many events and anchors to consider.
#[derive(Debug)]
pub struct TraceCompareRequest {
    pub before_stream_id: String,
    pub after_stream_id: String,
    pub before_offset: u32,
    pub after_offset: u32,
    pub max_events: u32,
    pub max_anchors: u32,
}

/// Where one event sits: its stream, sequence, timestamp and clock.
#[derive(Debug)]
pub struct TracePosition {
    pub stream_id: String,
    pub sequence: String,
    pub timestamp: String,
    pub clock_domain: String,
    pub timestamp_unit: String,
}

/// The first aligned position at which the two windows differ.
#[derive(Debug)]
pub struct TraceDivergence {
    pub reason: String,
    pub before: Option<TracePosition>,
    pub after: Option<TracePosition>,
    pub before_kind: Option<String>,
    pub after_kind: Option<String>,
}

/// The outcome of comparing two trace windows.
#[derive(Debug)]
pub struct TraceComparison {
    pub envelope: AnalysisEnvelope,
    pub before_artifact: ArtifactIdentity,
    pub after_artifact: ArtifactIdentity,
    pub anchor: Option<String>,
    pub compared_events: u32,
    pub matching_prefix_events: u32,
    pub ambiguous_anchors: Vec<String>,
    pub first_observed_divergence: Option<TraceDivergence>,
    pub before_loss_count: String,
    pub after_loss_count: String,
    pub before_interval: Option<String>,
    pub after_interval: Option<String>,
    pub before_clock_domain: String,
    pub after_clock_domain: String,
    pub before_timestamp_unit: String,
    pub after_timestamp_unit: String,
}

// ---------------------------------------------------------------------------
// Specification
// ---------------------------------------------------------------------------

/// The message of the first decimal check that `s` fails, if any.
pub open spec fn decimal_error(s: Seq<u8>) -> Option<Seq<char>> {
    if !all_digits(s) {
        Some("trace integers must be decimal u64 strings"@)
    } else if digits_value(s) > u64::MAX {
        Some("trace integer exceeds u64"@)
    } else {
        None
    }
}

/// The number a validated decimal string denotes.
pub open spec fn value_of(s: String) -> nat {
    digits_value(text_bytes(s))
}

/// The first problem with one event of a stream, given the previous sequence number.
pub open spec fn event_error(e: TraceEvent, previous: Option<nat>) -> Option<Seq<char>> {
    if decimal_error(text_bytes(e.sequence)) is Some {
        decimal_error(text_bytes(e.sequence))
    } else if decimal_error(text_bytes(e.timestamp)) is Some {
        decimal_error(text_bytes(e.timestamp))
    } else if e.loss_count is Some && decimal_error(text_bytes(e.loss_count->0)) is Some {
        decimal_error(text_bytes(e.loss_count->0))
    } else if previous is Some && value_of(e.sequence) <= previous->0 {
        Some("stream sequence must increase strictly"@)
    } else {
        None
    }
}

/// The first problem in a list of events, checked in order.
pub open spec fn events_error(events: Seq<TraceEvent>, previous: Option<nat>) -> Option<
    Seq<char>,
>
    decreases events.len(),
{
    if events.len() == 0 {
        None
    } else if event_error(events[0], previous) is Some {
        event_error(events[0], previous)
    } else {
        events_error(events.drop_first(), Some(value_of(events[0].sequence)))
    }
}

/// Total number of events over all streams.
pub open spec fn total_events(streams: Seq<TraceStream>) -> nat
    decreases streams.len(),
{
    if streams.len() == 0 {
        0
    } else {
        total_events(streams.drop_last()) + streams.last().events@.len()
    }
}

/// Number of streams with the given identity.
pub open spec fn streams_named(streams: Seq<TraceStream>, id: Seq<char>) -> nat {
    streams.filter(|s: TraceStream| s.id@ == id).len()
}

/// Whether an error is the one a specification outcome names: `None` for the budget
/// error, `Some(message)` for invalid input with that message.
pub open spec fn error_is(e: AnalysisError, expected: Option<Seq<char>>) -> bool {
    match expected {
        None => e is BudgetExhausted,
        Some(m) => e matches AnalysisError::InvalidInput(x) && x@ == m,
    }
}

/// Stream selection: the index of the unique stream named `id`, or the expected error.
pub open spec fn selection(streams: Seq<TraceStream>, id: Seq<char>) -> Result<
    int,
    Option<Seq<char>>,
> {
    if streams.len() > 64 || total_events(streams) > 10_000 {
        Err(None)
    } else if streams_named(streams, id) != 1 {
        Err(Some("selected stream must exist exactly once"@))
    } else {
        let i = choose|i: int| 0 <= i < streams.len() && streams[i].id@ == id;
        match events_error(streams[i].events@, None) {
            Some(m) => Err(Some(m)),
            None => Ok(i),
        }
    }
}

// ---------------------------------------------------------------------------
// Stream selection
// ---------------------------------------------------------------------------

pub proof fn lemma_total_events_prefix(streams: Seq<TraceStream>, i: int)
    requires
        0 <= i <= streams.len(),
    ensures
        total_events(streams.take(i)) <= total_events(streams),
    decreases streams.len() - i,
{
    if i < streams.len() {
        lemma_total_events_prefix(streams, i + 1);
        assert(streams.take(i + 1).drop_last() =~= streams.take(i));
    } else {
        assert(streams.take(i) =~= streams);
    }
}

/// Validates the events of one stream in order.
fn check_events(events: &Vec<TraceEvent>) -> (r: Result<(), AnalysisError>)
    ensures
        match r {
            Ok(()) => events_error(events@, None) is None,
            Err(e) => events_error(events@, None) is Some && error_is(
                e,
                events_error(events@, None),
            ),
        },
{
    let mut previous: Option<u64> = None;
    let mut i: usize = 0;
    proof {
        assert(events@.skip(0) =~= events@);
    }
    while i < events.len()
        invariant
            i <= events@.len(),
            events_error(events@, None) == events_error(
                events@.skip(i as int),
                match previous {
                    Some(p) => Some(p as nat),
                    None => None,
                },
            ),
        decreases events.len() - i,
    {
        let event = &events[i];
        let ghost prev_spec = match previous {
            Some(p) => Some(p as nat),
            None => None,
        };
        proof {
            assert(events@.skip(i as int)[0] == *event);
            assert(events@.skip(i as int).drop_first() =~= events@.skip(i as int + 1));
        }
        let value = decimal(event.sequence.as_str())?;
        decimal(event.timestamp.as_str())?;
        match &event.loss_count {
            Some(loss) => {
                decimal(loss.as_str())?;
            },
            None => {},
        }
        match previous {
            Some(p) => {
                if value <= p {
                    return Err(invalid("stream sequence must increase strictly"));
                }
            },
            None => {},
        }
        previous = Some(value);
        i += 1;
    }
    Ok(())
}

/// Selects the unique stream named `id` after the bundle-wide budgets, and validates it.
fn select_stream(bundle: &ObservationBundle, id: &String) -> (r: Result<usize, AnalysisError>)
    ensures
        match r {
            Ok(i) => selection(bundle.streams@, id@) == Ok::<int, Option<Seq<char>>>(i as int),
            Err(e) => selection(bundle.streams@, id@) is Err && error_is(
                e,
                selection(bundle.streams@, id@)->Err_0,
            ),
        },
        r matches Ok(i) ==> i < bundle.streams@.len(),
{
    let streams = &bundle.streams;
    if streams.len() > 64 {
        return Err(AnalysisError::BudgetExhausted);
    }
    let mut total: usize = 0;
    let mut i: usize = 0;
    while i < streams.len()
        invariant
            i <= streams@.len(),
            streams@ == bundle.streams@,
            streams@.len() <= 64,
            total as nat == total_events(streams@.take(i as int)),
            total <= 10_000,
        decreases streams.len() - i,
    {
        proof {
            assert(streams@.take(i as int + 1).drop_last() =~= streams@.take(i as int));
            assert(streams@.take(i as int + 1).last() == streams@[i as int]);
        }
        let count = streams[i].events.len();
        proof {
            assert(total_events(streams@.take(i as int + 1)) == total + count);
        }
        if count > 10_000 - total {
            proof {
                lemma_total_events_prefix(streams@, i as int + 1);
            }
            return Err(AnalysisError::BudgetExhausted);
        }
        total = total + count;
        i += 1;
    }
    proof {
        assert(streams@.take(streams@.len() as int) =~= streams@);
    }
    let mut found: Option<usize> = None;
    let mut matches: usize = 0;
    let mut j: usize = 0;
    while j < streams.len()
        invariant
            j <= streams@.len(),
            streams@ == bundle.streams@,
            streams@.len() <= 64,
            matches as nat == streams@.take(j as int).filter(|s: TraceStream| s.id@ == id@).len(),
            matches <= j,
            match found {
                Some(k) => k < j && streams@[k as int].id@ == id@,
                None => matches == 0,
            },
        decreases streams.len() - j,
    {
        proof {
            assert(streams@.take(j as int + 1).drop_last() =~= streams@.take(j as int));
            reveal(Seq::filter);
        }
        if streams[j].id == *id {
            matches = matches + 1;
            found = Some(j);
        }
        j += 1;
    }
    proof {
        assert(streams@.take(streams@.len() as int) =~= streams@);
    }
    if matches != 1 {
        return Err(invalid("selected stream must exist exactly once"));
    }
    let k = match found {
        Some(k) => k,
        None => 0,
    };
    proof {
        let p = |s: TraceStream| s.id@ == id@;
        let chosen = choose|i: int| 0 <= i < streams@.len() && streams@[i].id@ == id@;
        if chosen != k as int {
            lemma_two_matches(streams@, p, k as int, chosen);
        }
    }
    check_events(&streams[k].events)?;
    Ok(k)
}

proof fn lemma_two_matches(s: Seq<TraceStream>, p: spec_fn(TraceStream) -> bool, a: int, b: int)
    requires
        0 <= a < s.len(),
        0 <= b < s.len(),
        a != b,
        p(s[a]),
        p(s[b]),
    ensures
        s.filter(p).len() >= 2,
    decreases s.len(),
{
    reveal(Seq::filter);
    let last = s.len() - 1;
    if a == last || b == last {
        let other = if a == last {
            b
        } else {
            a
        };
        lemma_one_match(s.drop_last(), p, other);
    } else {
        lemma_two_matches(s.drop_last(), p, a, b);
        s.drop_last().lemma_filter_len(p);
    }
}

proof fn lemma_one_match(s: Seq<TraceStream>, p: spec_fn(TraceStream) -> bool, a: int)
    requires
        0 <= a < s.len(),
        p(s[a]),
    ensures
        s.filter(p).len() >= 1,
    decreases s.len(),
{
    reveal(Seq::filter);
    if a < s.len() - 1 {
        lemma_one_match(s.drop_last(), p, a);
    }
}

// ---------------------------------------------------------------------------
// Anchors
// ---------------------------------------------------------------------------

/// The correlation anchor of an event: its nonempty correlation ID, as bytes.
pub open spec fn anchor_key(e: TraceEvent) -> Option<Seq<u8>> {
    match e.correlation_id {
        Some(c) => if text_bytes(c).len() > 0 {
            Some(text_bytes(c))
        } else {
            None
        },
        None => None,
    }
}

/// How many events of a window carry anchor `k`.
pub open spec fn count_in(w: Seq<TraceEvent>, k: Seq<u8>) -> nat {
    w.filter(|e: TraceEvent| anchor_key(e) == Some(k)).len()
}

/// Number of distinct anchors in a window.
pub open spec fn distinct_anchors(w: Seq<TraceEvent>) -> nat
    decreases w.len(),
{
    if w.len() == 0 {
        0
    } else {
        distinct_anchors(w.drop_last()) + match anchor_key(w.last()) {
            Some(k) => if count_in(w.drop_last(), k) == 0 {
                1nat
            } else {
                0nat
            },
            None => 0nat,
        }
    }
}

/// Anchors repeated within either window.
pub open spec fn ambiguous_set(bw: Seq<TraceEvent>, aw: Seq<TraceEvent>) -> Set<Seq<u8>> {
    Set::new(|k: Seq<u8>| count_in(bw, k) > 1 || count_in(aw, k) > 1)
}

/// Whether position `p` of the before window holds an anchor that occurs exactly once in
/// each window.
pub open spec fn unique_at(bw: Seq<TraceEvent>, aw: Seq<TraceEvent>, p: int) -> bool {
    0 <= p < bw.len() && anchor_key(bw[p]) is Some && count_in(bw, anchor_key(bw[p])->0) == 1
        && count_in(aw, anchor_key(bw[p])->0) == 1
}

/// The anchor of an event, as bytes, when it has a nonempty one.
fn anchor_bytes(e: &TraceEvent) -> (r: Option<&[u8]>)
    ensures
        match r {
            Some(b) => anchor_key(*e) == Some(b@),
            None => anchor_key(*e) is None,
        },
{
    match &e.correlation_id {
        Some(c) => {
            let b = bytes_of(c);
            if b.len() == 0 {
                None
            } else {
                Some(b)
            }
        },
        None => None,
    }
}

/// Counts the events of `v[lo..hi]` that carry anchor `k`.
fn count_anchor(v: &Vec<TraceEvent>, lo: usize, hi: usize, k: &[u8]) -> (r: usize)
    requires
        lo <= hi <= v@.len(),
    ensures
        r as nat == count_in(v@.subrange(lo as int, hi as int), k@),
        r <= hi - lo,
{
    let mut n: usize = 0;
    let mut i: usize = lo;
    while i < hi
        invariant
            lo <= i <= hi <= v@.len(),
            n as nat == count_in(v@.subrange(lo as int, i as int), k@),
            n <= i - lo,
        decreases hi - i,
    {
        proof {
            assert(v@.subrange(lo as int, i as int + 1).drop_last() =~= v@.subrange(
                lo as int,
                i as int,
            ));
            assert(v@.subrange(lo as int, i as int + 1).last() == v@[i as int]);
            reveal(Seq::filter);
        }
        match anchor_bytes(&v[i]) {
            Some(b) => {
                if bytes_eq(b, k) {
                    n = n + 1;
                }
            },
            None => {},
        }
        i += 1;
    }
    n
}

/// Counts the distinct anchors of `v[lo..hi]`.
fn count_distinct(v: &Vec<TraceEvent>, lo: usize, hi: usize) -> (r: usize)
    requires
        lo <= hi <= v@.len(),
    ensures
        r as nat == distinct_anchors(v@.subrange(lo as int, hi as int)),
{
    let mut n: usize = 0;
    let mut i: usize = lo;
    while i < hi
        invariant
            lo <= i <= hi <= v@.len(),
            n as nat == distinct_anchors(v@.subrange(lo as int, i as int)),
            n <= i - lo,
        decreases hi - i,
    {
        proof {
            assert(v@.subrange(lo as int, i as int + 1).drop_last() =~= v@.subrange(
                lo as int,
                i as int,
            ));
            assert(v@.subrange(lo as int, i as int + 1).last() == v@[i as int]);
        }
        match anchor_bytes(&v[i]) {
            Some(b) => {
                if count_anchor(v, lo, i, b) == 0 {
                    n = n + 1;
                }
            },
            None => {},
        }
        i += 1;
    }
    n
}

proof fn lemma_count_witness(w: Seq<TraceEvent>, k: Seq<u8>)
    requires
        count_in(w, k) > 0,
    ensures
        exists|p: int| 0 <= p < w.len() && anchor_key(#[trigger] w[p]) == Some(k),
    decreases w.len(),
{
    reveal(Seq::filter);
    if anchor_key(w.last()) != Some(k) {
        lemma_count_witness(w.drop_last(), k);
        let p = choose|p: int| 0 <= p < w.drop_last().len() && anchor_key(w.drop_last()[p]) == Some(k);
        assert(w[p] == w.drop_last()[p]);
    } else {
        assert(anchor_key(w[w.len() - 1]) == Some(k));
    }
}

proof fn lemma_count_member(w: Seq<TraceEvent>, p: int)
    requires
        0 <= p < w.len(),
        anchor_key(w[p]) is Some,
    ensures
        count_in(w, anchor_key(w[p])->0) > 0,
    decreases w.len(),
{
    reveal(Seq::filter);
    if p < w.len() - 1 {
        lemma_count_member(w.drop_last(), p);
        assert(w.drop_last()[p] == w[p]);
    }
}

/// Adds the repeated anchors found in `v[lo..hi]` to a sorted set.
fn add_ambiguous(
    out: &mut Vec<String>,
    v: &Vec<TraceEvent>,
    lo: usize,
    hi: usize,
    bw: Ghost<Seq<TraceEvent>>,
    aw: Ghost<Seq<TraceEvent>>,
    bv: &Vec<TraceEvent>,
    blo: usize,
    bhi: usize,
    av: &Vec<TraceEvent>,
    alo: usize,
    ahi: usize,
)
    requires
        lo <= hi <= v@.len(),
        blo <= bhi <= bv@.len(),
        alo <= ahi <= av@.len(),
        bw@ == bv@.subrange(blo as int, bhi as int),
        aw@ == av@.subrange(alo as int, ahi as int),
        strictly_sorted(old(out)@),
    ensures
        strictly_sorted(final(out)@),
        byte_texts(final(out)@).to_set() == byte_texts(old(out)@).to_set().union(
            Set::new(
                |k: Seq<u8>|
                    (exists|p: int|
                        lo <= p < hi && anchor_key(#[trigger] v@[p]) == Some(k)) && ambiguous_set(
                        bw@,
                        aw@,
                    ).contains(k),
            ),
        ),
{
    let ghost start = byte_texts(out@).to_set();
    let mut i: usize = lo;
    while i < hi
        invariant
            lo <= i <= hi <= v@.len(),
            blo <= bhi <= bv@.len(),
            alo <= ahi <= av@.len(),
            bw@ == bv@.subrange(blo as int, bhi as int),
            aw@ == av@.subrange(alo as int, ahi as int),
            strictly_sorted(out@),
            byte_texts(out@).to_set() == start.union(
                Set::new(
                    |k: Seq<u8>|
                        (exists|p: int|
                            lo <= p < i && anchor_key(#[trigger] v@[p]) == Some(k))
                            && ambiguous_set(bw@, aw@).contains(k),
                ),
            ),
        decreases hi - i,
    {
        let ghost before_set = byte_texts(out@).to_set();
        match anchor_bytes(&v[i]) {
            Some(b) => {
                let nb = count_anchor(bv, blo, bhi, b);
                let na = count_anchor(av, alo, ahi, b);
                if nb > 1 || na > 1 {
                    let name = match &v[i].correlation_id {
                        Some(c) => c.clone(),
                        None => String::new(),
                    };
                    insert_sorted(out, name);
                }
            },
            None => {},
        }
        proof {
            let next = Set::new(
                |k: Seq<u8>|
                    (exists|p: int| lo <= p < i + 1 && anchor_key(#[trigger] v@[p]) == Some(k))
                        && ambiguous_set(bw@, aw@).contains(k),
            );
            let prev = Set::new(
                |k: Seq<u8>|
                    (exists|p: int| lo <= p < i && anchor_key(#[trigger] v@[p]) == Some(k))
                        && ambiguous_set(bw@, aw@).contains(k),
            );
            assert forall|k: Seq<u8>| next.contains(k) <==> (prev.contains(k) || (anchor_key(
                v@[i as int],
            ) == Some(k) && ambiguous_set(bw@, aw@).contains(k))) by {
                if next.contains(k) {
                    let p = choose|p: int| lo <= p < i + 1 && anchor_key(#[trigger] v@[p]) == Some(k);
                    if p < i {
                        assert(prev.contains(k));
                    }
                }
                if anchor_key(v@[i as int]) == Some(k) {
                    assert(lo <= i < i + 1 && anchor_key(v@[i as int]) == Some(k));
                }
            }
            assert(byte_texts(out@).to_set() =~= start.union(next));
        }
        i += 1;
    }
}

/// The first position of the before window whose anchor is unique in both windows, with the
/// position of that anchor in the after window.
fn first_unique(
    bv: &Vec<TraceEvent>,
    blo: usize,
    bhi: usize,
    av: &Vec<TraceEvent>,
    alo: usize,
    ahi: usize,
) -> (r: Option<(usize, usize)>)
    requires
        blo <= bhi <= bv@.len(),
        alo <= ahi <= av@.len(),
    ensures
        match r {
            Some((p, q)) => {
                let bw = bv@.subrange(blo as int, bhi as int);
                let aw = av@.subrange(alo as int, ahi as int);
                &&& unique_at(bw, aw, p as int)
                &&& forall|x: int| 0 <= x < p ==> !unique_at(bw, aw, x)
                &&& q < aw.len()
                &&& anchor_key(aw[q as int]) == anchor_key(bw[p as int])
            },
            None => forall|x: int|
                0 <= x < bhi - blo ==> !unique_at(
                    bv@.subrange(blo as int, bhi as int),
                    av@.subrange(alo as int, ahi as int),
                    x,
                ),
        },
{
    let ghost bw = bv@.subrange(blo as int, bhi as int);
    let ghost aw = av@.subrange(alo as int, ahi as int);
    let mut i: usize = blo;
    while i < bhi
        invariant
            blo <= i <= bhi <= bv@.len(),
            alo <= ahi <= av@.len(),
            bw == bv@.subrange(blo as int, bhi as int),
            aw == av@.subrange(alo as int, ahi as int),
            forall|x: int| 0 <= x < i - blo ==> !unique_at(bw, aw, x),
        decreases bhi - i,
    {
        proof {
            assert(bw[i - blo] == bv@[i as int]);
        }
        match anchor_bytes(&bv[i]) {
            Some(b) => {
                if count_anchor(bv, blo, bhi, b) == 1 && count_anchor(av, alo, ahi, b) == 1 {
                    let mut j: usize = alo;
                    proof {
                        lemma_count_witness(aw, b@);
                    }
                    while j < ahi
                        invariant
                            alo <= j <= ahi <= av@.len(),
                            blo <= i < bhi <= bv@.len(),
                            bw == bv@.subrange(blo as int, bhi as int),
                            aw == av@.subrange(alo as int, ahi as int),
                            forall|x: int| 0 <= x < i - blo ==> !unique_at(bw, aw, x),
                            bw[i - blo] == bv@[i as int],
                            count_in(bw, b@) == 1,
                            count_in(aw, b@) == 1,
                            anchor_key(bv@[i as int]) == Some(b@),
                            exists|p: int|
                                (j - alo) <= p < aw.len() && anchor_key(#[trigger] aw[p]) == Some(
                                    b@,
                                ),
                        decreases ahi - j,
                    {
                        proof {
                            assert(aw[j - alo] == av@[j as int]);
                        }
                        match anchor_bytes(&av[j]) {
                            Some(c) => {
                                if bytes_eq(c, b) {
                                    return Some((i - blo, j - alo));
                                }
                            },
                            None => {},
                        }
                        proof {
                            let p = choose|p: int|
                                (j - alo) <= p < aw.len() && anchor_key(#[trigger] aw[p]) == Some(
                                    b@,
                                );
                            assert(p != j - alo);
                        }
                        j += 1;
                    }
                    proof {
                        let p = choose|p: int|
                            (j - alo) <= p < aw.len() && anchor_key(#[trigger] aw[p]) == Some(b@);
                    }
                }
            },
            None => {},
        }
        i += 1;
    }
    None
}

// ---------------------------------------------------------------------------
// Loss counts and intervals
// ---------------------------------------------------------------------------

pub proof fn lemma_events_valid(events: Seq<TraceEvent>, previous: Option<nat>, i: int)
    requires
        events_error(events, previous) is None,
        0 <= i < events.len(),
    ensures
        decimal_error(text_bytes(events[i].sequence)) is None,
        decimal_error(text_bytes(events[i].timestamp)) is None,
        events[i].loss_count is Some ==> decimal_error(text_bytes(events[i].loss_count->0)) is None,
    decreases events.len(),
{
    if i > 0 {
        lemma_events_valid(events.drop_first(), Some(value_of(events[0].sequence)), i - 1);
        assert(events.drop_first()[i - 1] == events[i]);
    }
}

/// Sum of the explicit loss counts of a window.
pub open spec fn loss_total(w: Seq<TraceEvent>) -> nat
    decreases w.len(),
{
    if w.len() == 0 {
        0
    } else {
        loss_total(w.drop_last()) + match w.last().loss_count {
            Some(l) => value_of(l),
            None => 0,
        }
    }
}

/// The timestamp a validated event carries.
pub open spec fn stamp(e: TraceEvent) -> nat {
    value_of(e.timestamp)
}

/// Elapsed time over a window in its own unit, absent when timestamps ever decrease.
pub open spec fn interval_of(w: Seq<TraceEvent>) -> Option<Seq<char>> {
    if w.len() == 0 || exists|i: int| 0 <= i < w.len() - 1 && stamp(w[i + 1]) < stamp(#[trigger] w[i]) {
        None
    } else {
        Some(decimal_chars((stamp(w.last()) - stamp(w[0])) as nat))
    }
}

/// Sums the loss counts of `v[lo..hi]` of a validated stream.
fn sum_loss(v: &Vec<TraceEvent>, lo: usize, hi: usize) -> (r: u128)
    requires
        lo <= hi <= v@.len(),
        v@.len() <= 10_000,
        events_error(v@, None) is None,
    ensures
        r as nat == loss_total(v@.subrange(lo as int, hi as int)),
{
    let mut total: u128 = 0;
    let mut i: usize = lo;
    while i < hi
        invariant
            lo <= i <= hi <= v@.len(),
            v@.len() <= 10_000,
            events_error(v@, None) is None,
            total as nat == loss_total(v@.subrange(lo as int, i as int)),
            total <= (i - lo) as u128 * 0xFFFF_FFFF_FFFF_FFFFu128,
        decreases hi - i,
    {
        proof {
            assert(v@.subrange(lo as int, i as int + 1).drop_last() =~= v@.subrange(
                lo as int,
                i as int,
            ));
            assert(v@.subrange(lo as int, i as int + 1).last() == v@[i as int]);
            lemma_events_valid(v@, None, i as int);
        }
        match &v[i].loss_count {
            Some(loss) => {
                match decimal(loss.as_str()) {
                    Ok(x) => {
                        total = total + x as u128;
                    },
                    Err(_) => {},
                }
            },
            None => {},
        }
        i += 1;
    }
    total
}

/// The timestamp of event `i` of a validated stream.
fn stamp_at(v: &Vec<TraceEvent>, i: usize) -> (r: u64)
    requires
        i < v@.len(),
        events_error(v@, None) is None,
    ensures
        r as nat == stamp(v@[i as int]),
{
    proof {
        lemma_events_valid(v@, None, i as int);
    }
    match decimal(v[i].timestamp.as_str()) {
        Ok(x) => x,
        Err(_) => 0,
    }
}

/// The elapsed interval of `v[lo..hi]` of a validated stream, as decimal text.
#[verifier::rlimit(50)]
#[verifier::spinoff_prover]
fn interval(v: &Vec<TraceEvent>, lo: usize, hi: usize) -> (r: Option<String>)
    requires
        lo <= hi <= v@.len(),
        events_error(v@, None) is None,
    ensures
        match r {
            Some(t) => interval_of(v@.subrange(lo as int, hi as int)) == Some(t@),
            None => interval_of(v@.subrange(lo as int, hi as int)) is None,
        },
{
    let ghost w = v@.subrange(lo as int, hi as int);
    if lo == hi {
        return None;
    }
    let mut previous: u64 = 0;
    let mut first: u64 = 0;
    let mut i: usize = lo;
    while i < hi
        invariant
            lo <= i <= hi <= v@.len(),
            lo < hi,
            w == v@.subrange(lo as int, hi as int),
            events_error(v@, None) is None,
            i > lo ==> previous as nat == stamp(w[i - lo - 1]),
            i > lo ==> first as nat == stamp(w[0]),
            forall|j: int| 0 <= j < i - lo - 1 ==> stamp(w[j + 1]) >= stamp(#[trigger] w[j]),
        decreases hi - i,
    {
        proof {
            assert(w[i - lo] == v@[i as int]);
        }
        let value = stamp_at(v, i);
        if i > lo && value < previous {
            proof {
                assert(stamp(w[i - lo]) < stamp(w[i - lo - 1]));
                assert(0 <= (i - lo - 1) < w.len() - 1);
            }
            return None;
        }
        if i == lo {
            first = value;
        }
        let ghost before = previous;
        previous = value;
        proof {
            assert(value as nat == stamp(w[i - lo]));
            assert forall|j: int| 0 <= j < i - lo implies stamp(w[j + 1]) >= stamp(#[trigger] w[j]) by {
                if j == i - lo - 1 {
                    assert(before as nat == stamp(w[j]));
                }
            }
        }
        i += 1;
    }
    proof {
        assert(w.last() == w[w.len() - 1]);
        if exists|j: int| 0 <= j < w.len() - 1 && stamp(w[j + 1]) < stamp(#[trigger] w[j]) {
            let j = choose|j: int| 0 <= j < w.len() - 1 && stamp(w[j + 1]) < stamp(#[trigger] w[j]);
            assert(false);
        }
        lemma_nondecreasing_span(w);
    }
    Some(decimal_string((previous - first) as u128))
}

proof fn lemma_nondecreasing_span(w: Seq<TraceEvent>)
    requires
        w.len() > 0,
        forall|j: int| 0 <= j < w.len() - 1 ==> stamp(w[j + 1]) >= stamp(#[trigger] w[j]),
    ensures
        stamp(w[w.len() - 1]) >= stamp(w[0]),
    decreases w.len(),
{
    if w.len() > 1 {
        let d = w.drop_last();
        assert forall|j: int| 0 <= j < d.len() - 1 implies stamp(d[j + 1]) >= stamp(#[trigger] d[j]) by {
            assert(d[j] == w[j]);
            assert(d[j + 1] == w[j + 1]);
        }
        lemma_nondecreasing_span(d);
        assert(stamp(w[w.len() - 1]) >= stamp(w[w.len() - 2]));
    }
}

// ---------------------------------------------------------------------------
// Alignment
// ---------------------------------------------------------------------------

/// The character content of an optional string.
pub open spec fn opt_text(o: Option<String>) -> Option<Seq<char>> {
    match o {
        Some(s) => Some(s@),
        None => None,
    }
}

/// Why aligned position `i` differs, if it does.
pub open spec fn reason_at(l: Seq<TraceEvent>, r: Seq<TraceEvent>, i: int) -> Option<Seq<char>> {
    if i < l.len() && i < r.len() {
        if l[i].kind@ != r[i].kind@ {
            Some("event_kind"@)
        } else if opt_text(l[i].correlation_id) != opt_text(r[i].correlation_id) {
            Some("semantic_anchor"@)
        } else {
            None
        }
    } else {
        Some("selected_window_event_count"@)
    }
}

/// Whether two optional strings hold the same text.
fn same_text(a: &Option<String>, b: &Option<String>) -> (r: bool)
    ensures
        r == (opt_text(*a) == opt_text(*b)),
{
    match (a, b) {
        (Some(x), Some(y)) => *x == *y,
        (None, None) => true,
        _ => false,
    }
}

/// Where an event sits in its stream.
pub open spec fn position_of(stream: TraceStream, e: TraceEvent, p: TracePosition) -> bool {
    p.stream_id == stream.id && p.sequence == e.sequence && p.timestamp == e.timestamp
        && p.clock_domain == stream.clock_domain && p.timestamp_unit == stream.timestamp_unit
}

fn position(stream: &TraceStream, e: &TraceEvent) -> (r: TracePosition)
    ensures
        position_of(*stream, *e, r),
{
    TracePosition {
        stream_id: stream.id.clone(),
        sequence: e.sequence.clone(),
        timestamp: e.timestamp.clone(),
        clock_domain: stream.clock_domain.clone(),
        timestamp_unit: stream.timestamp_unit.clone(),
    }
}

/// The divergence record for aligned position `i`.
pub open spec fn divergence_of(
    bs: TraceStream,
    as_: TraceStream,
    l: Seq<TraceEvent>,
    r: Seq<TraceEvent>,
    i: int,
    d: TraceDivergence,
) -> bool {
    &&& reason_at(l, r, i) == Some(d.reason@)
    &&& (i < l.len() ==> d.before is Some && position_of(bs, l[i], d.before->0) && d.before_kind
        == Some(l[i].kind))
    &&& (i >= l.len() ==> d.before is None && d.before_kind is None)
    &&& (i < r.len() ==> d.after is Some && position_of(as_, r[i], d.after->0) && d.after_kind
        == Some(r[i].kind))
    &&& (i >= r.len() ==> d.after is None && d.after_kind is None)
}

// ---------------------------------------------------------------------------
// Comparison
// ---------------------------------------------------------------------------

/// Request bounds: 1..=2000 events and anchors, stream identities of at most 256 bytes.
pub open spec fn request_valid(q: TraceCompareRequest) -> bool {
    1 <= q.max_events <= 2000 && 1 <= q.max_anchors <= 2000 && text_bytes(q.before_stream_id).len()
        <= 256 && text_bytes(q.after_stream_id).len() <= 256
}

/// The stream a validated selection picks.
pub open spec fn selected(b: ObservationBundle, id: String) -> TraceStream {
    b.streams@[selection(b.streams@, id@)->Ok_0]
}

/// The events of `stream` from `offset`, at most `max` of them.
pub open spec fn window_of(stream: TraceStream, offset: u32, max: u32) -> Seq<TraceEvent> {
    let len = stream.events@.len();
    stream.events@.subrange(
        offset as int,
        if len - offset < max {
            len as int
        } else {
            offset + max
        },
    )
}

/// The error a comparison request fails with, if any: `Some(None)` for the budget error,
/// `Some(Some(message))` for invalid input.
#[verifier::opaque]
pub open spec fn comparison_error(
    b: ObservationBundle,
    a: ObservationBundle,
    q: TraceCompareRequest,
    bundle_bytes: int,
) -> Option<Option<Seq<char>>> {
    if !request_valid(q) {
        Some(Some("trace windows require 1..2000 events/anchors and stream IDs <=256 bytes"@))
    } else if bundle_bytes > 16_777_216 {
        Some(None)
    } else if selection(b.streams@, q.before_stream_id@) is Err {
        Some(selection(b.streams@, q.before_stream_id@)->Err_0)
    } else if selection(a.streams@, q.after_stream_id@) is Err {
        Some(selection(a.streams@, q.after_stream_id@)->Err_0)
    } else if q.before_offset > selected(b, q.before_stream_id).events@.len() || q.after_offset
        > selected(a, q.after_stream_id).events@.len() {
        Some(Some("trace offset exceeds selected stream"@))
    } else {
        None
    }
}

pub open spec fn observation_message() -> Seq<char> {
    "Trace comparison is an observation-window interpretation, not proof of behavioral equivalence; different work, instrumentation, buffering, sampling or event loss can change event counts"@
}

pub open spec fn window_message() -> Seq<char> {
    "Only bounded trace windows were selected; events outside them were not compared"@
}

pub open spec fn anchor_budget_message() -> Seq<char> {
    "Semantic-anchor budget exhausted; no alignment is asserted"@
}

pub open spec fn repeated_message() -> Seq<char> {
    "Repeated correlation IDs are ambiguous within a selected window and are not used as alignment anchors"@
}

pub open spec fn loss_message() -> Seq<char> {
    "Selected windows contain explicit event loss; missing observations cannot establish absent execution"@
}

pub open spec fn unaligned_message() -> Seq<char> {
    "Events before the first common unique anchor are unaligned and were not compared"@
}

pub open spec fn nonmonotonic_message() -> Seq<char> {
    "Nonmonotonic timestamps prevent an elapsed interval in at least one selected stream"@
}

pub open spec fn no_anchor_message() -> Seq<char> {
    "No usable unique common semantic anchor exists in the selected windows; no divergence or equivalence is asserted"@
}

/// Limitations after adding each of `extra` once, in order.
pub open spec fn add_limitations(v: Seq<Seq<char>>, extra: Seq<Seq<char>>) -> Seq<Seq<char>>
    decreases extra.len(),
{
    if extra.len() == 0 {
        v
    } else {
        add_limitation(add_limitations(v, extra.drop_last()), extra.last())
    }
}

/// Coverage before the conditional gaps: the observation gap plus the bundles' limitations.
#[verifier::opaque]
pub open spec fn trace_start(b: ObservationBundle, a: ObservationBundle) -> (
    Status,
    Seq<ReasonCount>,
    Seq<Seq<char>>,
) {
    (
        Status::Partial,
        seq![ReasonCount { reason: UnknownReason::UnsupportedConstruct, count: 1 }],
        add_limitations(
            seq![observation_message()],
            texts(b.limitations@) + texts(a.limitations@),
        ),
    )
}

/// The gaps a comparison records before alignment, in order: bounded windows, anchor
/// budget, repeated anchors and event loss.
#[verifier::opaque]
pub open spec fn pre_gaps(windowed: bool, too_many: bool, ambiguous: bool, lossy: bool) -> Seq<
    (UnknownReason, Seq<char>),
> {
    let s1: Seq<(UnknownReason, Seq<char>)> = if windowed {
        seq![(UnknownReason::BudgetExhausted, window_message())]
    } else {
        seq![]
    };
    let s2 = if too_many {
        s1.push((UnknownReason::BudgetExhausted, anchor_budget_message()))
    } else {
        s1
    };
    let s3 = if ambiguous {
        s2.push((UnknownReason::UnsupportedConstruct, repeated_message()))
    } else {
        s2
    };
    if lossy {
        s3.push((UnknownReason::UnsupportedConstruct, loss_message()))
    } else {
        s3
    }
}

/// The gaps a comparison records after choosing (or not finding) an anchor.
#[verifier::opaque]
pub open spec fn post_gaps(anchored: bool, offset_anchor: bool, no_interval: bool) -> Seq<
    (UnknownReason, Seq<char>),
> {
    if anchored {
        let s1: Seq<(UnknownReason, Seq<char>)> = if offset_anchor {
            seq![(UnknownReason::UnsupportedConstruct, unaligned_message())]
        } else {
            seq![]
        };
        if no_interval {
            s1.push((UnknownReason::UnsupportedConstruct, nonmonotonic_message()))
        } else {
            s1
        }
    } else {
        seq![(UnknownReason::UnsupportedConstruct, no_anchor_message())]
    }
}

/// The conditional gaps a comparison records, in order.
pub open spec fn trace_gaps(
    windowed: bool,
    too_many: bool,
    ambiguous: bool,
    lossy: bool,
    anchored: bool,
    offset_anchor: bool,
    no_interval: bool,
) -> Seq<(UnknownReason, Seq<char>)> {
    pre_gaps(windowed, too_many, ambiguous, lossy) + post_gaps(anchored, offset_anchor, no_interval)
}

/// The fixed assumptions of a trace comparison.
#[verifier::opaque]
pub open spec fn trace_assumptions() -> Seq<Seq<char>> {
    seq![
        "Only the explicitly selected per-stream windows are compared; timestamps never impose a cross-stream total order"@,
        "A unique correlation ID is a producer-supplied semantic anchor, not independently verified workload or test-contract compatibility"@,
        "Equality compares event kind and correlation ID only; payload, source semantics, device state and run inputs may differ"@,
        "The first observed divergence under this alignment rule is not proof of root cause"@,
        "Artifact identities remain separate; no historical result reuse or original-pass/Rust-fail classification is inferred"@,
        "Intervals use each stream's own unit and clock domain, never CPU-time conversion or cross-clock subtraction"@,
    ]
}

/// Whether no early stop was recorded in a report.
pub open spec fn no_stop(t: TraceComparison) -> bool {
    !crate::envelope::stop_recorded(t.envelope)
}

/// Whether the windows were bounded by offset or event budget.
#[verifier::opaque]
pub open spec fn windowed(b: ObservationBundle, a: ObservationBundle, q: TraceCompareRequest) -> bool {
    q.before_offset != 0 || q.after_offset != 0 || window_of(
        selected(b, q.before_stream_id),
        q.before_offset,
        q.max_events,
    ).len() + q.before_offset < selected(b, q.before_stream_id).events@.len() || window_of(
        selected(a, q.after_stream_id),
        q.after_offset,
        q.max_events,
    ).len() + q.after_offset < selected(a, q.after_stream_id).events@.len()
}

/// Alignment outcome of two suffixes: `m` matching positions, `c` compared positions and
/// the divergence at the first mismatch, if any.
pub open spec fn alignment(
    bs: TraceStream,
    as_: TraceStream,
    l: Seq<TraceEvent>,
    r: Seq<TraceEvent>,
    m: u32,
    c: u32,
    d: Option<TraceDivergence>,
) -> bool {
    let max = if l.len() < r.len() {
        r.len() as int
    } else {
        l.len() as int
    };
    &&& 0 <= m <= max
    &&& forall|j: int| 0 <= j < m ==> reason_at(l, r, j) is None
    &&& (m < max ==> reason_at(l, r, m as int) is Some && c == m + 1 && d is Some && divergence_of(
        bs,
        as_,
        l,
        r,
        m as int,
        d->0,
    ))
    &&& (m == max ==> c == m && d is None)
}

/// The aligned suffixes from an anchor: alignment outcome and per-stream intervals.
#[verifier::opaque]
pub open spec fn aligned_facts(
    bs: TraceStream,
    as_: TraceStream,
    l: Seq<TraceEvent>,
    r: Seq<TraceEvent>,
    t: TraceComparison,
) -> bool {
    let m = t.matching_prefix_events as int;
    &&& alignment(bs, as_, l, r, t.matching_prefix_events, t.compared_events, t.first_observed_divergence)
    &&& (m > 0 ==> opt_text(t.before_interval) == interval_of(l.take(m)) && opt_text(
        t.after_interval,
    ) == interval_of(r.take(m)))
    &&& (m == 0 ==> t.before_interval is None && t.after_interval is None)
}

/// What a comparison reports when it ran to completion.
#[verifier::opaque]
pub open spec fn comparison_facts(
    b: ObservationBundle,
    a: ObservationBundle,
    q: TraceCompareRequest,
    t: TraceComparison,
) -> bool {
    let bs = selected(b, q.before_stream_id);
    let as_ = selected(a, q.after_stream_id);
    let bw = window_of(bs, q.before_offset, q.max_events);
    let aw = window_of(as_, q.after_offset, q.max_events);
    let too_many = distinct_anchors(bw) > q.max_anchors || distinct_anchors(aw) > q.max_anchors;
    let lossy = loss_total(bw) != 0 || loss_total(aw) != 0;
    &&& t.envelope.truncated == (windowed(b, a, q) || too_many)
    &&& (t.anchor is None <==> (too_many || forall|x: int| 0 <= x < bw.len() ==> !unique_at(bw, aw, x)))
    &&& (t.anchor is None ==> t.compared_events == 0 && t.matching_prefix_events == 0
        && t.first_observed_divergence is None && t.before_interval is None && t.after_interval is None
        && coverage_view(t.envelope.coverage) == with_gaps(
        trace_start(b, a),
        trace_gaps(windowed(b, a, q), too_many, ambiguous_set(bw, aw) != Set::<Seq<u8>>::empty(), lossy, false, false, false),
    ))
    &&& (t.anchor is Some ==> exists|p: int, x: int|
        #![trigger bw[p], aw[x]]
        {
            &&& unique_at(bw, aw, p)
            &&& forall|y: int| 0 <= y < p ==> !unique_at(bw, aw, y)
            &&& 0 <= x < aw.len()
            &&& anchor_key(aw[x]) == anchor_key(bw[p])
            &&& text_bytes(t.anchor->0) == anchor_key(bw[p])->0
            &&& aligned_facts(bs, as_, bw.skip(p), aw.skip(x), t)
            &&& coverage_view(t.envelope.coverage) == with_gaps(
                trace_start(b, a),
                trace_gaps(
                    windowed(b, a, q),
                    too_many,
                    ambiguous_set(bw, aw) != Set::<Seq<u8>>::empty(),
                    lossy,
                    true,
                    p != 0 || x != 0,
                    t.matching_prefix_events > 0 && (t.before_interval is None
                        || t.after_interval is None),
                ),
            )
        })
}

/// Facts that hold of every successful comparison, stopped early or not.
#[verifier::opaque]
pub open spec fn comparison_header(
    b: ObservationBundle,
    a: ObservationBundle,
    q: TraceCompareRequest,
    t: TraceComparison,
) -> bool {
    let bs = selected(b, q.before_stream_id);
    let as_ = selected(a, q.after_stream_id);
    let bw = window_of(bs, q.before_offset, q.max_events);
    let aw = window_of(as_, q.after_offset, q.max_events);
    &&& t.envelope.algorithm_version@ == "stream-correlation-anchor-prefix-v1"@
    &&& texts(t.envelope.assumptions@) == trace_assumptions()
    &&& t.before_artifact == b.artifact
    &&& t.after_artifact == a.artifact
    &&& t.before_clock_domain == bs.clock_domain
    &&& t.after_clock_domain == as_.clock_domain
    &&& t.before_timestamp_unit == bs.timestamp_unit
    &&& t.after_timestamp_unit == as_.timestamp_unit
    &&& t.before_loss_count@ == decimal_chars(loss_total(bw))
    &&& t.after_loss_count@ == decimal_chars(loss_total(aw))
    &&& exists|all: Seq<String>|
        strictly_sorted(all) && byte_texts(all).to_set() == ambiguous_set(bw, aw)
            && t.ambiguous_anchors@ == all.take(
            if all.len() < q.max_anchors {
                all.len() as int
            } else {
                q.max_anchors as int
            },
        )
}

/// Compares the aligned suffixes `bs.events[bpos..bhi]` and `as_.events[apos..ahi]` position
/// by position until the first difference. Returns matching and compared counts, the
/// divergence, and whether the control stopped the comparison (then the envelope records it).
fn align(
    bs: &TraceStream,
    bpos: usize,
    bhi: usize,
    as_: &TraceStream,
    apos: usize,
    ahi: usize,
    control: &AnalysisControl,
    envelope: &mut AnalysisEnvelope,
) -> (r: (u32, u32, Option<TraceDivergence>, bool))
    requires
        bpos <= bhi <= bs.events@.len(),
        apos <= ahi <= as_.events@.len(),
        bhi - bpos <= 2000,
        ahi - apos <= 2000,
    ensures
        !r.3 ==> *final(envelope) == *old(envelope),
        !r.3 ==> alignment(
            *bs,
            *as_,
            bs.events@.subrange(bpos as int, bhi as int),
            as_.events@.subrange(apos as int, ahi as int),
            r.0,
            r.1,
            r.2,
        ),
        r.3 ==> final(envelope).truncated && coverage_view(final(envelope).coverage) == with_gap(
            coverage_view(old(envelope).coverage),
            UnknownReason::BudgetExhausted,
            stopped_message(),
        ),
        r.3 ==> final(envelope).algorithm_version == old(envelope).algorithm_version
            && final(envelope).assumptions == old(envelope).assumptions
            && crate::envelope::stop_recorded(*final(envelope)) && final(envelope).truncated,
        r.0 <= bhi - bpos,
        r.0 <= ahi - apos,
        r.1 == r.0 + (if r.2 is Some { 1int } else { 0int }),
        r.3 ==> r.2 is None,
        old(envelope).coverage.status != Status::Complete ==> final(envelope).coverage.status != Status::Complete,
{
    let ghost l = bs.events@.subrange(bpos as int, bhi as int);
    let ghost rr = as_.events@.subrange(apos as int, ahi as int);
    let llen = bhi - bpos;
    let rlen = ahi - apos;
    let max = if llen < rlen {
        rlen
    } else {
        llen
    };
    let mut i: usize = 0;
    let mut compared: u32 = 0;
    let mut divergence: Option<TraceDivergence> = None;
    let mut done = false;
    let mut stopped = false;
    while i < max && !done
        invariant
            bpos <= bhi <= bs.events@.len(),
            apos <= ahi <= as_.events@.len(),
            llen == bhi - bpos,
            rlen == ahi - apos,
            l == bs.events@.subrange(bpos as int, bhi as int),
            rr == as_.events@.subrange(apos as int, ahi as int),
            max == (if llen < rlen {
                rlen
            } else {
                llen
            }),
            max <= 2000,
            i <= max,
            forall|j: int| 0 <= j < i ==> reason_at(l, rr, j) is None,
            !done ==> compared == i && divergence is None && !stopped && *envelope == *old(envelope),
            done && !stopped ==> i < max && compared == i + 1 && reason_at(l, rr, i as int) is Some
                && divergence is Some && divergence_of(*bs, *as_, l, rr, i as int, divergence->0)
                && *envelope == *old(envelope),
            stopped ==> compared == i && divergence is None,
            stopped ==> envelope.coverage.status == crate::model::degrade(old(envelope).coverage.status),
            stopped ==> done && envelope.truncated && coverage_view(envelope.coverage) == with_gap(
                coverage_view(old(envelope).coverage),
                UnknownReason::BudgetExhausted,
                stopped_message(),
            ) && envelope.algorithm_version == old(envelope).algorithm_version
                && envelope.assumptions == old(envelope).assumptions
                && crate::envelope::stop_recorded(*envelope),
        decreases max - i, (if done {
            0int
        } else {
            1int
        }),
    {
        if control.stopped() {
            envelope.stop(control);
            stopped = true;
            done = true;
        } else {
            compared = compared + 1;
            let a = if i < llen {
                Some(&bs.events[bpos + i])
            } else {
                None
            };
            let b = if i < rlen {
                Some(&as_.events[apos + i])
            } else {
                None
            };
            proof {
                if i < llen {
                    assert(l[i as int] == bs.events@[bpos + i]);
                }
                if i < rlen {
                    assert(rr[i as int] == as_.events@[apos + i]);
                }
            }
            let reason: Option<&str> = match (a, b) {
                (Some(x), Some(y)) => {
                    if !(x.kind == y.kind) {
                        proof {
                            reveal_strlit("event_kind");
                        }
                        Some("event_kind")
                    } else if !same_text(&x.correlation_id, &y.correlation_id) {
                        proof {
                            reveal_strlit("semantic_anchor");
                        }
                        Some("semantic_anchor")
                    } else {
                        None
                    }
                },
                _ => {
                    proof {
                        reveal_strlit("selected_window_event_count");
                    }
                    Some("selected_window_event_count")
                },
            };
            match reason {
                Some(text) => {
                    let before = match a {
                        Some(x) => Some(position(bs, x)),
                        None => None,
                    };
                    let after = match b {
                        Some(y) => Some(position(as_, y)),
                        None => None,
                    };
                    let before_kind = match a {
                        Some(x) => Some(x.kind.clone()),
                        None => None,
                    };
                    let after_kind = match b {
                        Some(y) => Some(y.kind.clone()),
                        None => None,
                    };
                    divergence = Some(
                        TraceDivergence {
                            reason: text.to_string(),
                            before,
                            after,
                            before_kind,
                            after_kind,
                        },
                    );
                    done = true;
                },
                None => {
                    i += 1;
                },
            }
        }
    }
    proof {
        if !stopped && !done {
            assert(i == max);
        }
        if i > 0 {
            assert(reason_at(l, rr, i - 1) is None);
        }
    }
    (i as u32, compared, divergence, stopped)
}

proof fn lemma_add_limitations_concat(v: Seq<Seq<char>>, x: Seq<Seq<char>>, y: Seq<Seq<char>>)
    ensures
        add_limitations(v, x + y) == add_limitations(add_limitations(v, x), y),
    decreases y.len(),
{
    if y.len() == 0 {
        assert(x + y =~= x);
    } else {
        lemma_add_limitations_concat(v, x, y.drop_last());
        assert((x + y).drop_last() =~= x + y.drop_last());
        assert((x + y).last() == y.last());
    }
}

proof fn lemma_gap_keeps(
    m: (Status, Seq<ReasonCount>, Seq<Seq<char>>),
    reason: UnknownReason,
    message: Seq<char>,
    x: Seq<char>,
)
    requires
        m.2.contains(x),
    ensures
        with_gap(m, reason, message).2.contains(x),
{
    reveal(with_gap);
    if !m.2.contains(message) {
        let j = choose|j: int| 0 <= j < m.2.len() && m.2[j] == x;
        assert(m.2.push(message)[j] == x);
    }
}

proof fn lemma_gap_adds(m: (Status, Seq<ReasonCount>, Seq<Seq<char>>), reason: UnknownReason, message: Seq<char>)
    ensures
        with_gap(m, reason, message).2.contains(message),
{
    reveal(with_gap);
    if !m.2.contains(message) {
        assert(m.2.push(message)[m.2.len() as int] == message);
    }
}

/// Adds each of `extra` to `v` unless already present.
fn add_extra_limitations(v: &mut Vec<String>, extra: &Vec<String>)
    ensures
        texts(final(v)@) == add_limitations(texts(old(v)@), texts(extra@)),
{
    let mut i: usize = 0;
    while i < extra.len()
        invariant
            i <= extra@.len(),
            texts(v@) == add_limitations(texts(old(v)@), texts(extra@.take(i as int))),
        decreases extra.len() - i,
    {
        proof {
            assert(texts(extra@.take(i as int + 1)).drop_last() =~= texts(extra@.take(i as int)));
            assert(texts(extra@.take(i as int + 1)).last() == extra@[i as int]@);
        }
        let ghost before = texts(v@);
        let mut present = false;
        let mut j: usize = 0;
        while j < v.len()
            invariant
                j <= v@.len(),
                i < extra@.len(),
                before == texts(v@),
                present <==> exists|k: int| 0 <= k < j && before[k] == extra@[i as int]@,
            decreases v.len() - j,
        {
            proof {
                assert(before[j as int] == v@[j as int]@);
            }
            if v[j] == extra[i] {
                present = true;
            }
            j += 1;
        }
        proof {
            if before.contains(extra@[i as int]@) {
                let k = choose|k: int| 0 <= k < before.len() && before[k] == extra@[i as int]@;
                assert(present);
            }
        }
        if !present {
            v.push(extra[i].clone());
            proof {
                assert(texts(v@) =~= before.push(extra@[i as int]@));
            }
        }
        i += 1;
    }
    proof {
        assert(extra@.take(extra@.len() as int) =~= extra@);
    }
}

/// The fixed assumptions of a trace comparison.
fn assumption_list() -> (r: Vec<String>)
    ensures
        texts(r@) == trace_assumptions(),
{
    let mut v: Vec<String> = Vec::new();
    v.push("Only the explicitly selected per-stream windows are compared; timestamps never impose a cross-stream total order".to_string());
    v.push("A unique correlation ID is a producer-supplied semantic anchor, not independently verified workload or test-contract compatibility".to_string());
    v.push("Equality compares event kind and correlation ID only; payload, source semantics, device state and run inputs may differ".to_string());
    v.push("The first observed divergence under this alignment rule is not proof of root cause".to_string());
    v.push("Artifact identities remain separate; no historical result reuse or original-pass/Rust-fail classification is inferred".to_string());
    v.push("Intervals use each stream's own unit and clock domain, never CPU-time conversion or cross-clock subtraction".to_string());
    proof {
        reveal(trace_assumptions);
        assert(texts(v@) =~= trace_assumptions());
    }
    v
}

proof fn lemma_total_events_member(streams: Seq<TraceStream>, i: int)
    requires
        0 <= i < streams.len(),
    ensures
        streams[i].events@.len() <= total_events(streams),
    decreases streams.len(),
{
    if i < streams.len() - 1 {
        lemma_total_events_member(streams.drop_last(), i);
        assert(streams.drop_last()[i] == streams[i]);
    }
}

proof fn lemma_ambiguous_cover(
    bw: Seq<TraceEvent>,
    aw: Seq<TraceEvent>,
    found: Set<Seq<u8>>,
)
    requires
        found == Set::<Seq<u8>>::empty().union(
            Set::new(
                |k: Seq<u8>|
                    (exists|p: int| 0 <= p < bw.len() && anchor_key(#[trigger] bw[p]) == Some(k))
                        && ambiguous_set(bw, aw).contains(k),
            ),
        ).union(
            Set::new(
                |k: Seq<u8>|
                    (exists|p: int| 0 <= p < aw.len() && anchor_key(#[trigger] aw[p]) == Some(k))
                        && ambiguous_set(bw, aw).contains(k),
            ),
        ),
    ensures
        found == ambiguous_set(bw, aw),
{
    assert forall|k: Seq<u8>| found.contains(k) <==> ambiguous_set(bw, aw).contains(k) by {
        if ambiguous_set(bw, aw).contains(k) {
            if count_in(bw, k) > 1 {
                lemma_count_witness(bw, k);
            } else {
                lemma_count_witness(aw, k);
            }
        }
    }
    assert(found =~= ambiguous_set(bw, aw));
}

/// Checks the request, selects both streams and computes the two windows: stream indices
/// and window bounds `[start, end)` in each stream.
fn select_windows(
    before: &ObservationBundle,
    after: &ObservationBundle,
    request: &TraceCompareRequest,
    bundle_bytes: usize,
) -> (r: Result<(usize, usize, usize, usize, usize, usize), AnalysisError>)
    ensures
        match r {
            Err(e) => comparison_error(*before, *after, *request, bundle_bytes as int) is Some && error_is(
                e,
                comparison_error(*before, *after, *request, bundle_bytes as int)->0,
            ),
            Ok((bi, ai, bstart, bend, astart, aend)) => {
                &&& comparison_error(*before, *after, *request, bundle_bytes as int) is None
                &&& bi < before.streams@.len()
                &&& ai < after.streams@.len()
                &&& before.streams@[bi as int] == selected(*before, request.before_stream_id)
                &&& after.streams@[ai as int] == selected(*after, request.after_stream_id)
                &&& bstart <= bend <= before.streams@[bi as int].events@.len() <= 10_000
                &&& astart <= aend <= after.streams@[ai as int].events@.len() <= 10_000
                &&& bend - bstart <= 2000
                &&& aend - astart <= 2000
                &&& before.streams@[bi as int].events@.subrange(bstart as int, bend as int)
                    == window_of(
                    selected(*before, request.before_stream_id),
                    request.before_offset,
                    request.max_events,
                )
                &&& after.streams@[ai as int].events@.subrange(astart as int, aend as int)
                    == window_of(
                    selected(*after, request.after_stream_id),
                    request.after_offset,
                    request.max_events,
                )
                &&& events_error(before.streams@[bi as int].events@, None) is None
                &&& events_error(after.streams@[ai as int].events@, None) is None
                &&& windowed(*before, *after, *request) == (request.before_offset != 0
                    || request.after_offset != 0 || bend < before.streams@[bi as int].events@.len()
                    || aend < after.streams@[ai as int].events@.len())
            },
        },
{
    proof {
        reveal(comparison_error);
        reveal(windowed);
    }
    if request.max_events < 1 || request.max_events > 2000 || request.max_anchors < 1
        || request.max_anchors > 2000 || bytes_of(&request.before_stream_id).len() > 256
        || bytes_of(&request.after_stream_id).len() > 256 {
        return Err(
            invalid("trace windows require 1..2000 events/anchors and stream IDs <=256 bytes"),
        );
    }
    if bundle_bytes > 16 * 1024 * 1024 {
        return Err(AnalysisError::BudgetExhausted);
    }
    let bi = match select_stream(before, &request.before_stream_id) {
        Ok(i) => i,
        Err(e) => {
            return Err(e);
        },
    };
    let ai = match select_stream(after, &request.after_stream_id) {
        Ok(i) => i,
        Err(e) => {
            return Err(e);
        },
    };
    let blen = before.streams[bi].events.len();
    let alen = after.streams[ai].events.len();
    proof {
        lemma_total_events_member(before.streams@, bi as int);
        lemma_total_events_member(after.streams@, ai as int);
    }
    let bstart = request.before_offset as usize;
    let astart = request.after_offset as usize;
    if bstart > blen || astart > alen {
        return Err(invalid("trace offset exceeds selected stream"));
    }
    let max_events = request.max_events as usize;
    let bend = if blen - bstart < max_events {
        blen
    } else {
        bstart + max_events
    };
    let aend = if alen - astart < max_events {
        alen
    } else {
        astart + max_events
    };
    Ok((bi, ai, bstart, bend, astart, aend))
}

/// The envelope of a trace comparison before any conditional gap.
fn start_envelope(before: &ObservationBundle, after: &ObservationBundle) -> (e: AnalysisEnvelope)
    ensures
        e.algorithm_version@ == "stream-correlation-anchor-prefix-v1"@,
        texts(e.assumptions@) == trace_assumptions(),
        !e.truncated,
        !crate::envelope::stop_recorded(e),
        coverage_view(e.coverage) == trace_start(*before, *after),
        e.coverage.status == Status::Partial,
{
    let mut envelope = AnalysisEnvelope::new(
        "stream-correlation-anchor-prefix-v1",
        Coverage::complete(),
    );
    envelope.assumptions = assumption_list();
    proof {
        assert(envelope.coverage.reasons@ =~= Seq::<ReasonCount>::empty());
        assert(texts(envelope.coverage.limitations@) =~= Seq::<Seq<char>>::empty());
    }
    let ghost initial = coverage_view(envelope.coverage);
    envelope.partial(
        UnknownReason::UnsupportedConstruct,
        "Trace comparison is an observation-window interpretation, not proof of behavioral equivalence; different work, instrumentation, buffering, sampling or event loss can change event counts",
    );
    add_extra_limitations(&mut envelope.coverage.limitations, &before.limitations);
    add_extra_limitations(&mut envelope.coverage.limitations, &after.limitations);
    proof {
        reveal(trace_start);
        lemma_add_limitations_concat(
            seq![observation_message()],
            texts(before.limitations@),
            texts(after.limitations@),
        );
        assert(add_limitation(Seq::<Seq<char>>::empty(), observation_message()) =~= seq![
            observation_message(),
        ]);
        lemma_sort_single(ReasonCount { reason: UnknownReason::UnsupportedConstruct, count: 1 });
        assert(initial.1 == Seq::<ReasonCount>::empty());
        assert(first_reason(Seq::<ReasonCount>::empty(), UnknownReason::UnsupportedConstruct) == -1);
        assert(bump_reason(Seq::<ReasonCount>::empty(), UnknownReason::UnsupportedConstruct)
            =~= seq![ReasonCount { reason: UnknownReason::UnsupportedConstruct, count: 1 }]);
        assert(envelope.coverage.reasons@ == seq![ReasonCount { reason: UnknownReason::UnsupportedConstruct, count: 1 }]);
        assert(envelope.coverage.status == Status::Partial);
        assert(texts(envelope.coverage.limitations@) == add_limitations(
            seq![observation_message()],
            texts(before.limitations@) + texts(after.limitations@),
        ));
    }
    envelope
}

/// Anchor survey of two windows: all repeated anchors (sorted), the first anchor unique in
/// both windows with its positions, and whether either window exceeds the anchor budget.
fn survey_anchors(
    bs: &TraceStream,
    bstart: usize,
    bend: usize,
    as_: &TraceStream,
    astart: usize,
    aend: usize,
    max_anchors: u32,
) -> (r: (Vec<String>, Option<(usize, usize)>, bool))
    requires
        bstart <= bend <= bs.events@.len(),
        astart <= aend <= as_.events@.len(),
    ensures
        ({
            let bw = bs.events@.subrange(bstart as int, bend as int);
            let aw = as_.events@.subrange(astart as int, aend as int);
            &&& strictly_sorted(r.0@)
            &&& byte_texts(r.0@).to_set() == ambiguous_set(bw, aw)
            &&& (r.0@.len() > 0 <==> ambiguous_set(bw, aw) != Set::<Seq<u8>>::empty())
            &&& r.2 == (distinct_anchors(bw) > max_anchors || distinct_anchors(aw) > max_anchors)
            &&& match r.1 {
                Some((p, q)) => {
                    &&& unique_at(bw, aw, p as int)
                    &&& forall|x: int| 0 <= x < p ==> !unique_at(bw, aw, x)
                    &&& q < aw.len()
                    &&& anchor_key(aw[q as int]) == anchor_key(bw[p as int])
                },
                None => forall|x: int| 0 <= x < bw.len() ==> !unique_at(bw, aw, x),
            }
        }),
{
    let ghost bw = bs.events@.subrange(bstart as int, bend as int);
    let ghost aw = as_.events@.subrange(astart as int, aend as int);
    let nb = count_distinct(&bs.events, bstart, bend);
    let na = count_distinct(&as_.events, astart, aend);
    let mut ambiguous: Vec<String> = Vec::new();
    proof {
        assert(byte_texts(ambiguous@).to_set() =~= Set::<Seq<u8>>::empty());
    }
    add_ambiguous(
        &mut ambiguous,
        &bs.events,
        bstart,
        bend,
        Ghost(bw),
        Ghost(aw),
        &bs.events,
        bstart,
        bend,
        &as_.events,
        astart,
        aend,
    );
    add_ambiguous(
        &mut ambiguous,
        &as_.events,
        astart,
        aend,
        Ghost(bw),
        Ghost(aw),
        &bs.events,
        bstart,
        bend,
        &as_.events,
        astart,
        aend,
    );
    proof {
        let s1 = Set::new(
            |k: Seq<u8>|
                (exists|p: int| bstart <= p < bend && anchor_key(#[trigger] bs.events@[p]) == Some(k))
                    && ambiguous_set(bw, aw).contains(k),
        );
        let t1 = Set::new(
            |k: Seq<u8>|
                (exists|p: int| 0 <= p < bw.len() && anchor_key(#[trigger] bw[p]) == Some(k))
                    && ambiguous_set(bw, aw).contains(k),
        );
        assert forall|k: Seq<u8>| s1.contains(k) <==> t1.contains(k) by {
            if s1.contains(k) {
                let p = choose|p: int| bstart <= p < bend && anchor_key(#[trigger] bs.events@[p]) == Some(k);
                assert(bw[p - bstart] == bs.events@[p]);
            }
            if t1.contains(k) {
                let p = choose|p: int| 0 <= p < bw.len() && anchor_key(#[trigger] bw[p]) == Some(k);
                assert(bw[p] == bs.events@[p + bstart]);
            }
        }
        assert(s1 =~= t1);
        let s2 = Set::new(
            |k: Seq<u8>|
                (exists|p: int| astart <= p < aend && anchor_key(#[trigger] as_.events@[p]) == Some(k))
                    && ambiguous_set(bw, aw).contains(k),
        );
        let t2 = Set::new(
            |k: Seq<u8>|
                (exists|p: int| 0 <= p < aw.len() && anchor_key(#[trigger] aw[p]) == Some(k))
                    && ambiguous_set(bw, aw).contains(k),
        );
        assert forall|k: Seq<u8>| s2.contains(k) <==> t2.contains(k) by {
            if s2.contains(k) {
                let p = choose|p: int| astart <= p < aend && anchor_key(#[trigger] as_.events@[p]) == Some(k);
                assert(aw[p - astart] == as_.events@[p]);
            }
            if t2.contains(k) {
                let p = choose|p: int| 0 <= p < aw.len() && anchor_key(#[trigger] aw[p]) == Some(k);
                assert(aw[p] == as_.events@[p + astart]);
            }
        }
        assert(s2 =~= t2);
        lemma_ambiguous_cover(bw, aw, byte_texts(ambiguous@).to_set());
        if ambiguous@.len() > 0 {
            assert(byte_texts(ambiguous@).to_set().contains(byte_texts(ambiguous@)[0]));
        } else {
            assert(byte_texts(ambiguous@).to_set() =~= Set::<Seq<u8>>::empty());
        }
    }
    let unique = first_unique(&bs.events, bstart, bend, &as_.events, astart, aend);
    let too_many = nb > max_anchors as usize || na > max_anchors as usize;
    (ambiguous, unique, too_many)
}

/// Records one gap and keeps the bookkeeping of the comparison: while no stop was recorded,
/// the coverage equals the start coverage with `gaps` applied; once one was, the stop
/// message stays among the limitations.
fn record(
    envelope: &mut AnalysisEnvelope,
    reason: UnknownReason,
    message: &str,
    start: Ghost<(Status, Seq<ReasonCount>, Seq<Seq<char>>)>,
    gaps: Ghost<Seq<(UnknownReason, Seq<char>)>>,
    interrupted: bool,
)
    requires
        !interrupted ==> coverage_view(old(envelope).coverage) == with_gaps(start@, gaps@),
        interrupted ==> texts(old(envelope).coverage.limitations@).contains(stopped_message()) && crate::envelope::stop_recorded(*old(envelope)) && old(envelope).truncated,
    ensures
        !interrupted ==> final(envelope).cancelled == old(envelope).cancelled
            && final(envelope).deadline_reached == old(envelope).deadline_reached,
        !interrupted ==> coverage_view(final(envelope).coverage) == with_gaps(
            start@,
            gaps@.push((reason, message@)),
        ),
        interrupted ==> texts(final(envelope).coverage.limitations@).contains(stopped_message()) && crate::envelope::stop_recorded(*final(envelope)) && final(envelope).truncated,
        final(envelope).truncated == old(envelope).truncated,
        final(envelope).algorithm_version == old(envelope).algorithm_version,
        final(envelope).assumptions == old(envelope).assumptions,
        final(envelope).coverage.status != Status::Complete,
{
    let ghost pre = coverage_view(envelope.coverage);
    envelope.partial(reason, message);
    proof {
        if interrupted {
            lemma_gap_keeps(pre, reason, message@, stopped_message());
        } else {
            lemma_with_gaps_push(start@, gaps@, reason, message@);
        }
    }
}

/// Whether `u` is the first anchor unique in both windows, with its positions, or `None`
/// when no anchor is unique in both.
pub open spec fn first_common(bw: Seq<TraceEvent>, aw: Seq<TraceEvent>, u: Option<(usize, usize)>) -> bool {
    match u {
        Some((p, q)) => {
            &&& unique_at(bw, aw, p as int)
            &&& forall|x: int| 0 <= x < p ==> !unique_at(bw, aw, x)
            &&& q < aw.len()
            &&& anchor_key(aw[q as int]) == anchor_key(bw[p as int])
        },
        None => forall|x: int| 0 <= x < bw.len() ==> !unique_at(bw, aw, x),
    }
}

/// A comparison after the checks that precede alignment.
struct Prepared {
    envelope: AnalysisEnvelope,
    ambiguous: Vec<String>,
    unique: Option<(usize, usize)>,
    too_many: bool,
    before_loss: u128,
    after_loss: u128,
    interrupted: bool,
}

/// Runs the checks that precede alignment and records their gaps in order: bounded
/// windows, anchor budget, repeated anchors, an early stop and event loss. Also returns the
/// gaps recorded, while no stop was.
fn prepare(
    before: &ObservationBundle,
    after: &ObservationBundle,
    bs: &TraceStream,
    bstart: usize,
    bend: usize,
    as_: &TraceStream,
    astart: usize,
    aend: usize,
    request: &TraceCompareRequest,
    control: &AnalysisControl,
) -> (r: (Prepared, Ghost<Seq<(UnknownReason, Seq<char>)>>))
    requires
        bstart <= bend <= bs.events@.len() <= 10_000,
        astart <= aend <= as_.events@.len() <= 10_000,
        events_error(bs.events@, None) is None,
        events_error(as_.events@, None) is None,
        1 <= request.max_anchors,
    ensures
        ({
            let bw = bs.events@.subrange(bstart as int, bend as int);
            let aw = as_.events@.subrange(astart as int, aend as int);
            let w = request.before_offset != 0 || request.after_offset != 0 || bend
                < bs.events@.len() || aend < as_.events@.len();
            let too_many = distinct_anchors(bw) > request.max_anchors || distinct_anchors(aw)
                > request.max_anchors;
            let am = ambiguous_set(bw, aw) != Set::<Seq<u8>>::empty();
            let lossy = loss_total(bw) != 0 || loss_total(aw) != 0;
            let p = r.0;
            &&& p.envelope.algorithm_version@ == "stream-correlation-anchor-prefix-v1"@
            &&& texts(p.envelope.assumptions@) == trace_assumptions()
            &&& p.before_loss as nat == loss_total(bw)
            &&& p.after_loss as nat == loss_total(aw)
            &&& p.too_many == too_many
            &&& exists|all: Seq<String>|
                strictly_sorted(all) && byte_texts(all).to_set() == ambiguous_set(bw, aw)
                    && p.ambiguous@ == all.take(
                    if all.len() < request.max_anchors {
                        all.len() as int
                    } else {
                        request.max_anchors as int
                    },
                )
            &&& p.interrupted ==> crate::envelope::stop_recorded(p.envelope) && p.envelope.truncated
            &&& p.interrupted ==> p.unique is None && texts(
                p.envelope.coverage.limitations@,
            ).contains(stopped_message())
            &&& !p.interrupted ==> p.envelope.truncated == (w || too_many)
            &&& !p.interrupted ==> !crate::envelope::stop_recorded(p.envelope)
            &&& p.envelope.coverage.status != Status::Complete
            &&& !p.interrupted ==> r.1@ == pre_gaps(w, too_many, am, lossy)
            &&& !p.interrupted ==> coverage_view(p.envelope.coverage) == with_gaps(
                trace_start(*before, *after),
                r.1@,
            )
            &&& !p.interrupted ==> (if too_many {
                p.unique is None
            } else {
                first_common(bw, aw, p.unique)
            })
        }),
{
    let ghost bw = bs.events@.subrange(bstart as int, bend as int);
    let ghost aw = as_.events@.subrange(astart as int, aend as int);
    let mut envelope = start_envelope(before, after);
    let ghost start = trace_start(*before, *after);
    let ghost mut gaps: Seq<(UnknownReason, Seq<char>)> = Seq::empty();
    let mut interrupted = false;
    let is_windowed = request.before_offset != 0 || request.after_offset != 0 || bend
        < bs.events.len() || aend < as_.events.len();
    if is_windowed {
        envelope.truncated = true;
        record(
            &mut envelope,
            UnknownReason::BudgetExhausted,
            "Only bounded trace windows were selected; events outside them were not compared",
            Ghost(start),
            Ghost(gaps),
            interrupted,
        );
        proof {
            gaps = gaps.push((UnknownReason::BudgetExhausted, window_message()));
        }
    }
    let (mut ambiguous, survey_unique, too_many) = survey_anchors(
        bs,
        bstart,
        bend,
        as_,
        astart,
        aend,
        request.max_anchors,
    );
    let ghost all_ambiguous = ambiguous@;
    let mut unique = survey_unique;
    if too_many {
        envelope.truncated = true;
        record(
            &mut envelope,
            UnknownReason::BudgetExhausted,
            "Semantic-anchor budget exhausted; no alignment is asserted",
            Ghost(start),
            Ghost(gaps),
            interrupted,
        );
        proof {
            gaps = gaps.push((UnknownReason::BudgetExhausted, anchor_budget_message()));
        }
        unique = None;
    }
    let has_ambiguous = ambiguous.len() > 0;
    if has_ambiguous {
        record(
            &mut envelope,
            UnknownReason::UnsupportedConstruct,
            "Repeated correlation IDs are ambiguous within a selected window and are not used as alignment anchors",
            Ghost(start),
            Ghost(gaps),
            interrupted,
        );
        proof {
            gaps = gaps.push((UnknownReason::UnsupportedConstruct, repeated_message()));
        }
    }
    if control.stopped() {
        let ghost pre = coverage_view(envelope.coverage);
        envelope.stop(control);
        proof {
            lemma_gap_adds(pre, UnknownReason::BudgetExhausted, stopped_message());
        }
        unique = None;
        interrupted = true;
    }
    let bl = sum_loss(&bs.events, bstart, bend);
    let al = sum_loss(&as_.events, astart, aend);
    if bl != 0 || al != 0 {
        record(
            &mut envelope,
            UnknownReason::UnsupportedConstruct,
            "Selected windows contain explicit event loss; missing observations cannot establish absent execution",
            Ghost(start),
            Ghost(gaps),
            interrupted,
        );
        proof {
            gaps = gaps.push((UnknownReason::UnsupportedConstruct, loss_message()));
        }
    }
    ambiguous.truncate(request.max_anchors as usize);
    proof {
        reveal(pre_gaps);
        assert(ambiguous@ == all_ambiguous.take(
            if all_ambiguous.len() < request.max_anchors {
                all_ambiguous.len() as int
            } else {
                request.max_anchors as int
            },
        ));
    }
    let prepared = Prepared {
        envelope,
        ambiguous,
        unique,
        too_many,
        before_loss: bl,
        after_loss: al,
        interrupted,
    };
    (prepared, Ghost(gaps))
}

/// The outcome of aligning from a common anchor.
struct Anchored {
    anchor: String,
    matching: u32,
    compared: u32,
    divergence: Option<TraceDivergence>,
    before_interval: Option<String>,
    after_interval: Option<String>,
    interrupted: bool,
}

/// Aligns the windows from the anchor at window positions `p` and `q`, computes the
/// intervals over the matching prefix and records the corresponding gaps.
#[verifier::rlimit(40)]
fn run_from_anchor(
    bs: &TraceStream,
    bstart: usize,
    bend: usize,
    as_: &TraceStream,
    astart: usize,
    aend: usize,
    p: usize,
    q: usize,
    control: &AnalysisControl,
    envelope: &mut AnalysisEnvelope,
    start: Ghost<(Status, Seq<ReasonCount>, Seq<Seq<char>>)>,
    gaps: Ghost<Seq<(UnknownReason, Seq<char>)>>,
) -> (r: Anchored)
    requires
        bstart <= bend <= bs.events@.len(),
        astart <= aend <= as_.events@.len(),
        bend - bstart <= 2000,
        aend - astart <= 2000,
        p < bend - bstart,
        q < aend - astart,
        events_error(bs.events@, None) is None,
        events_error(as_.events@, None) is None,
        anchor_key(bs.events@[bstart + p]) is Some,
        coverage_view(old(envelope).coverage) == with_gaps(start@, gaps@),
    ensures
        r.interrupted ==> texts(final(envelope).coverage.limitations@).contains(stopped_message()) && crate::envelope::stop_recorded(*final(envelope)) && final(envelope).truncated,
        !r.interrupted ==> coverage_view(final(envelope).coverage) == with_gaps(
            start@,
            gaps@ + post_gaps(
                true,
                p != 0 || q != 0,
                r.matching > 0 && (r.before_interval is None || r.after_interval is None),
            ),
        ),
        !r.interrupted ==> final(envelope).truncated == old(envelope).truncated,
        !r.interrupted ==> final(envelope).cancelled == old(envelope).cancelled
            && final(envelope).deadline_reached == old(envelope).deadline_reached,
        r.compared == r.matching + (if r.divergence is Some { 1int } else { 0int }),
        old(envelope).coverage.status != Status::Complete ==> final(envelope).coverage.status != Status::Complete,
        final(envelope).algorithm_version == old(envelope).algorithm_version,
        final(envelope).assumptions == old(envelope).assumptions,
        ({
            let l = bs.events@.subrange(bstart + p, bend as int);
            let rr = as_.events@.subrange(astart + q, aend as int);
            let m = r.matching as int;
            &&& text_bytes(r.anchor) == anchor_key(bs.events@[bstart + p])->0
            &&& !r.interrupted ==> alignment(
                *bs,
                *as_,
                l,
                rr,
                r.matching,
                r.compared,
                r.divergence,
            )
            &&& m <= l.len() && m <= rr.len()
            &&& (m > 0 ==> opt_text(r.before_interval) == interval_of(l.take(m)) && opt_text(
                r.after_interval,
            ) == interval_of(rr.take(m)))
            &&& (m == 0 ==> r.before_interval is None && r.after_interval is None)
        }),
{
    let mut interrupted = false;
    let ghost mut local: Seq<(UnknownReason, Seq<char>)> = Seq::empty();
    proof {
        assert(gaps@ + local =~= gaps@);
    }
    let anchor = match &bs.events[bstart + p].correlation_id {
        Some(c) => c.clone(),
        None => String::new(),
    };
    if p != 0 || q != 0 {
        record(
            envelope,
            UnknownReason::UnsupportedConstruct,
            "Events before the first common unique anchor are unaligned and were not compared",
            start,
            Ghost(gaps@ + local),
            interrupted,
        );
        proof {
            assert((gaps@ + local).push(
                (UnknownReason::UnsupportedConstruct, unaligned_message()),
            ) =~= gaps@ + local.push((UnknownReason::UnsupportedConstruct, unaligned_message())));
            local = local.push((UnknownReason::UnsupportedConstruct, unaligned_message()));
        }
    }
    let ghost pre = coverage_view(envelope.coverage);
    let outcome = align(bs, bstart + p, bend, as_, astart + q, aend, control, envelope);
    if outcome.3 {
        proof {
            lemma_gap_adds(pre, UnknownReason::BudgetExhausted, stopped_message());
        }
        interrupted = true;
    }
    let matching = outcome.0;
    let mut before_interval: Option<String> = None;
    let mut after_interval: Option<String> = None;
    if matching > 0 {
        let count = matching as usize;
        before_interval = interval(&bs.events, bstart + p, bstart + p + count);
        after_interval = interval(&as_.events, astart + q, astart + q + count);
        proof {
            assert(bs.events@.subrange(bstart + p, bstart + p + count) =~= bs.events@.subrange(
                bstart + p,
                bend as int,
            ).take(count as int));
            assert(as_.events@.subrange(astart + q, astart + q + count) =~= as_.events@.subrange(
                astart + q,
                aend as int,
            ).take(count as int));
        }
        if before_interval.is_none() || after_interval.is_none() {
            let ghost pre2 = coverage_view(envelope.coverage);
            record(
                envelope,
                UnknownReason::UnsupportedConstruct,
                "Nonmonotonic timestamps prevent an elapsed interval in at least one selected stream",
                start,
                Ghost(gaps@ + local),
                interrupted,
            );
            proof {
                assert((gaps@ + local).push(
                    (UnknownReason::UnsupportedConstruct, nonmonotonic_message()),
                ) =~= gaps@ + local.push(
                    (UnknownReason::UnsupportedConstruct, nonmonotonic_message()),
                ));
                local = local.push((UnknownReason::UnsupportedConstruct, nonmonotonic_message()));
            }
        }
    }
    proof {
        reveal(post_gaps);
        assert(local == post_gaps(
            true,
            p != 0 || q != 0,
            matching > 0 && (before_interval is None || after_interval is None),
        ));
    }
    Anchored {
        anchor,
        matching,
        compared: outcome.1,
        divergence: outcome.2,
        before_interval,
        after_interval,
        interrupted,
    }
}

/// What a finished comparison holds before the response byte budget is applied.
pub open spec fn comparison_holds(
    before: ObservationBundle,
    after: ObservationBundle,
    request: TraceCompareRequest,
    bundle_bytes: int,
    t: TraceComparison,
) -> bool {
    &&& comparison_error(before, after, request, bundle_bytes) is None
    &&& comparison_header(before, after, request, t)
    &&& no_stop(t) ==> comparison_facts(before, after, request, t)
    &&& t.compared_events == t.matching_prefix_events + (if t.first_observed_divergence is Some {
        1int
    } else {
        0int
    })
    &&& t.anchor is None ==> t.compared_events == 0 && t.first_observed_divergence is None
    &&& !no_stop(t) ==> t.envelope.truncated
    &&& t.envelope.coverage.status != crate::model::Status::Complete
}

/// Compares the windows up to a finished report, before the response byte budget.
#[verifier::rlimit(100)]
#[verifier::spinoff_prover]
fn compare_windows(
    before: &ObservationBundle,
    after: &ObservationBundle,
    request: &TraceCompareRequest,
    control: &AnalysisControl,
    bundle_bytes: usize,
) -> (r: Result<TraceComparison, AnalysisError>)
    ensures
        match r {
            Err(e) => comparison_error(*before, *after, *request, bundle_bytes as int) is Some && error_is(
                e,
                comparison_error(*before, *after, *request, bundle_bytes as int)->0,
            ),
            Ok(t) => comparison_holds(*before, *after, *request, bundle_bytes as int, t),
        },
{
    let (bi, ai, bstart, bend, astart, aend) = match select_windows(before, after, request, bundle_bytes) {
        Ok(w) => w,
        Err(e) => {
            return Err(e);
        },
    };
    proof {
        reveal(comparison_error);
    }
    let bs = &before.streams[bi];
    let as_ = &after.streams[ai];
    let (prepared, gaps) = prepare(
        before,
        after,
        bs,
        bstart,
        bend,
        as_,
        astart,
        aend,
        request,
        control,
    );
    let Prepared { mut envelope, ambiguous, unique, too_many, before_loss, after_loss, interrupted } =
        prepared;
    let ghost start = trace_start(*before, *after);
    let ghost pre = envelope;
    let (anchor, matching, compared, divergence, before_interval, after_interval, stopped) =
        match unique {
        Some((p, q)) => {
            let a = run_from_anchor(
                bs,
                bstart,
                bend,
                as_,
                astart,
                aend,
                p,
                q,
                control,
                &mut envelope,
                Ghost(start),
                gaps,
            );
            (
                Some(a.anchor),
                a.matching,
                a.compared,
                a.divergence,
                a.before_interval,
                a.after_interval,
                a.interrupted,
            )
        },
        None => {
            record(
                &mut envelope,
                UnknownReason::UnsupportedConstruct,
                "No usable unique common semantic anchor exists in the selected windows; no divergence or equivalence is asserted",
                Ghost(start),
                gaps,
                interrupted,
            );
            (None, 0, 0, None, None, None, interrupted)
        },
    };
    let report = TraceComparison {
        envelope,
        before_artifact: before.artifact.clone(),
        after_artifact: after.artifact.clone(),
        anchor,
        compared_events: compared,
        matching_prefix_events: matching,
        ambiguous_anchors: ambiguous,
        first_observed_divergence: divergence,
        before_loss_count: decimal_string(before_loss),
        after_loss_count: decimal_string(after_loss),
        before_interval,
        after_interval,
        before_clock_domain: bs.clock_domain.clone(),
        after_clock_domain: as_.clock_domain.clone(),
        before_timestamp_unit: bs.timestamp_unit.clone(),
        after_timestamp_unit: as_.timestamp_unit.clone(),
    };
    proof {
        assert(comparison_header(*before, *after, *request, report)) by {
            reveal(comparison_header);
        }
        if no_stop(report) {
            assert(!stopped);
            let bw = bs.events@.subrange(bstart as int, bend as int);
            let aw = as_.events@.subrange(astart as int, aend as int);
            match unique {
                Some((p, q)) => {
                    assert(bw.skip(p as int) =~= bs.events@.subrange(bstart + p, bend as int));
                    assert(aw.skip(q as int) =~= as_.events@.subrange(astart + q, aend as int));
                    assert(bw[p as int] == bs.events@[bstart + p]);
                    assert(comparison_facts(*before, *after, *request, report)) by {
                        reveal(comparison_facts);
                        reveal(aligned_facts);
                    }
                },
                None => {
                    assert(gaps@.push((UnknownReason::UnsupportedConstruct, no_anchor_message()))
                        =~= gaps@ + post_gaps(false, false, false)) by {
                        reveal(post_gaps);
                    }
                    assert(comparison_facts(*before, *after, *request, report)) by {
                        reveal(comparison_facts);
                        reveal(aligned_facts);
                    }
                },
            }
        }
    }
    Ok(report)
}

/// Aligns one explicitly selected stream pair by a unique producer-supplied correlation
/// anchor and reports the first observed divergence. It compares event kind and correlation
/// IDs only, never definition IDs across artifacts or timestamps across clocks.
///
/// `bundle_bytes` is the serialized size of the two bundles and `response_size` measures
/// the serialized size of a report; the caller owns serialization. Bundles over 16 MiB, or
/// a report over 2 MiB, exhaust the budget.
#[verifier::rlimit(100)]
#[verifier::spinoff_prover]
pub fn compare_trace_windows<F: Fn(&TraceComparison) -> usize>(
    before: &ObservationBundle,
    after: &ObservationBundle,
    request: &TraceCompareRequest,
    control: &AnalysisControl,
    bundle_bytes: usize,
    response_size: F,
) -> (r: Result<TraceComparison, AnalysisError>)
    requires
        forall|t: TraceComparison| #[trigger] response_size.requires((&t,)),
    ensures
        match r {
            Err(e) => (comparison_error(*before, *after, *request, bundle_bytes as int) is Some && error_is(
                e,
                comparison_error(*before, *after, *request, bundle_bytes as int)->0,
            )) || (e is BudgetExhausted && exists|full: TraceComparison, n: usize|
                comparison_holds(*before, *after, *request, bundle_bytes as int, full)
                    && #[trigger] response_size.ensures((&full,), n) && n > 2_097_152),
            Ok(t) => comparison_holds(*before, *after, *request, bundle_bytes as int, t) && exists|n: usize|
                #[trigger] response_size.ensures((&t,), n) && n <= 2_097_152,
        },
{
    let report = match compare_windows(before, after, request, control, bundle_bytes) {
        Ok(t) => t,
        Err(e) => {
            return Err(e);
        },
    };
    if response_size(&report) > 2 * 1024 * 1024 {
        return Err(AnalysisError::BudgetExhausted);
    }
    Ok(report)
}


/// Whether position `p` and kind `kind` are those of some event of window `w` of `stream`:
/// its stream, clock domain and unit, sequence number, timestamp and kind.
pub open spec fn reports_event(p: TracePosition, kind: Option<String>, stream: TraceStream, w: Seq<TraceEvent>) -> bool {
    exists|j: int|
        0 <= j < w.len() && p.stream_id == stream.id && p.clock_domain == stream.clock_domain
            && p.timestamp_unit == stream.timestamp_unit && p.sequence == (#[trigger] w[j]).sequence
            && p.timestamp == w[j].timestamp && kind == Some(w[j].kind)
}

proof fn lemma_divergence_anchor(b: ObservationBundle, a: ObservationBundle, q: TraceCompareRequest, t: TraceComparison)
    requires
        comparison_facts(b, a, q, t),
        t.first_observed_divergence is Some,
    ensures
        ({
            let bs = selected(b, q.before_stream_id);
            let as_ = selected(a, q.after_stream_id);
            let bw = window_of(bs, q.before_offset, q.max_events);
            let aw = window_of(as_, q.after_offset, q.max_events);
            exists|p: int, x: int|
                0 <= p < bw.len() && 0 <= x < aw.len() && #[trigger] aligned_facts(bs, as_, bw.skip(p), aw.skip(x), t)
        }),
{
    reveal(comparison_facts);
}

proof fn lemma_aligned_divergence(
    bs: TraceStream,
    as_: TraceStream,
    l: Seq<TraceEvent>,
    r: Seq<TraceEvent>,
    t: TraceComparison,
)
    requires
        aligned_facts(bs, as_, l, r, t),
        t.first_observed_divergence is Some,
    ensures
        divergence_of(bs, as_, l, r, t.matching_prefix_events as int, t.first_observed_divergence->0),
{
    reveal(aligned_facts);
}

proof fn lemma_divergence_sides(
    bs: TraceStream,
    as_: TraceStream,
    bw: Seq<TraceEvent>,
    aw: Seq<TraceEvent>,
    p: int,
    x: int,
    t: TraceComparison,
)
    requires
        0 <= p < bw.len(),
        0 <= x < aw.len(),
        aligned_facts(bs, as_, bw.skip(p), aw.skip(x), t),
        t.first_observed_divergence is Some,
    ensures
        t.first_observed_divergence matches Some(d) ==> d.before matches Some(q) ==> reports_event(q, d.before_kind, bs, bw),
        t.first_observed_divergence matches Some(d) ==> d.after matches Some(q) ==> reports_event(q, d.after_kind, as_, aw),
{
    let l = bw.skip(p);
    let r = aw.skip(x);
    let m = t.matching_prefix_events as int;
    let d = t.first_observed_divergence->0;
    lemma_aligned_divergence(bs, as_, l, r, t);
    if d.before is Some {
        assert(l[m] == bw[p + m]);
        let e = bw[p + m];
        let q = d.before->0;
        assert(q.timestamp == e.timestamp && q.sequence == e.sequence);
        assert(reports_event(q, d.before_kind, bs, bw));
    }
    if d.after is Some {
        assert(r[m] == aw[x + m]);
        let e = aw[x + m];
        let q = d.after->0;
        assert(q.timestamp == e.timestamp && q.sequence == e.sequence);
        assert(reports_event(q, d.after_kind, as_, aw));
    }
}

/// The first divergence of a finished comparison reports real events of the compared
/// windows: each side it names is some event of that side's window, with that event's own
/// stream, sequence number, timestamp and kind.
pub proof fn law_divergence_reports_window_events(
    before: ObservationBundle,
    after: ObservationBundle,
    request: TraceCompareRequest,
    bundle_bytes: int,
    t: TraceComparison,
)
    requires
        comparison_holds(before, after, request, bundle_bytes, t),
        no_stop(t),
    ensures
        ({
            let bs = selected(before, request.before_stream_id);
            let bw = window_of(bs, request.before_offset, request.max_events);
            t.first_observed_divergence matches Some(d) ==> d.before matches Some(p) ==> reports_event(p, d.before_kind, bs, bw)
        }),
        ({
            let as_ = selected(after, request.after_stream_id);
            let aw = window_of(as_, request.after_offset, request.max_events);
            t.first_observed_divergence matches Some(d) ==> d.after matches Some(p) ==> reports_event(p, d.after_kind, as_, aw)
        }),
{
    if t.first_observed_divergence is Some {
        let bs = selected(before, request.before_stream_id);
        let as_ = selected(after, request.after_stream_id);
        let bw = window_of(bs, request.before_offset, request.max_events);
        let aw = window_of(as_, request.after_offset, request.max_events);
        lemma_divergence_anchor(before, after, request, t);
        let (p, x) = choose|p: int, x: int|
            0 <= p < bw.len() && 0 <= x < aw.len() && #[trigger] aligned_facts(bs, as_, bw.skip(p), aw.skip(x), t);
        lemma_divergence_sides(bs, as_, bw, aw, p, x, t);
    }
}

} // verus!
