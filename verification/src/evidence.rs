//! Checks that an imported observation bundle belongs to the selected snapshot, artifact and
//! definitions, and stays within its record and text budgets.
use crate::decimal::{all_digits, read_u64};
use crate::model::texts;
use crate::observation::{
    ObservationBundle, TestObservation, TestOutcome, TraceEvent, TraceStream, SCHEMA_VERSION,
};
use crate::text::{bytes_of, text_bytes, text_is};
use crate::trace::{lemma_total_events_prefix, total_events, value_of};
use vstd::prelude::*;
use vstd::string::{StrSliceExecFns, StringSliceAdditionalSpecFns};

verus! {

/// The identity of the snapshot that observations must belong to.
#[derive(Debug)]
pub struct SnapshotIdentity {
    pub id: String,
    pub source_id: String,
    pub context_id: String,
}

// ---------------------------------------------------------------------------
// Specification
// ---------------------------------------------------------------------------

/// Length of a string in UTF-8 bytes.
pub open spec fn byte_len(s: String) -> nat {
    text_bytes(s).len()
}

/// Whether `id` is one of the selected definitions.
pub open spec fn known(definitions: Seq<String>, id: String) -> bool {
    texts(definitions).contains(id@)
}

/// The message for a decimal string that `s` is not, if any.
pub open spec fn number_error(s: String) -> Option<Seq<char>> {
    if !all_digits(text_bytes(s)) {
        Some("timestamps and sequence numbers must be unsigned decimal strings"@)
    } else if value_of(s) > u64::MAX {
        Some("decimal value exceeds u64"@)
    } else {
        None
    }
}

/// Unicode white space, the characters `char::is_whitespace` accepts.
pub open spec fn white(c: char) -> bool {
    let v = c as u32;
    (9 <= v <= 13) || v == 32 || v == 0x85 || v == 0xA0 || v == 0x1680 || (0x2000 <= v <= 0x200A)
        || v == 0x2028 || v == 0x2029 || v == 0x202F || v == 0x205F || v == 0x3000
}

/// Whether text is empty after trimming white space: it holds only white space.
pub open spec fn blank(s: Seq<char>) -> bool {
    forall|i: int| 0 <= i < s.len() ==> white(#[trigger] s[i])
}

/// Whether a byte is an ASCII hexadecimal digit.
pub open spec fn hex(b: u8) -> bool {
    (48 <= b <= 57) || (65 <= b <= 70) || (97 <= b <= 102)
}

/// Sixty-four hexadecimal digits.
pub open spec fn hex_digest(s: Seq<u8>) -> bool {
    s.len() == 64 && forall|i: int| 0 <= i < s.len() ==> hex(#[trigger] s[i])
}

/// The first problem with one test record.
pub open spec fn test_error(t: TestObservation, definitions: Seq<String>) -> Option<Seq<char>> {
    if byte_len(t.name) == 0 {
        Some("test identity is required"@)
    } else if byte_len(t.name) > 256 || (t.reason matches Some(r) && byte_len(r) > 1024)
        || t.definition_ids@.len() > 100 {
        Some("test record exceeds budget"@)
    } else if t.elapsed_ns matches Some(e) && number_error(e) is Some {
        number_error(t.elapsed_ns->0)
    } else if t.timeout_ns matches Some(e) && number_error(e) is Some {
        number_error(t.timeout_ns->0)
    } else if t.outcome == TestOutcome::Timeout && t.timeout_ns is None {
        Some("timeout observations require the timeout cap"@)
    } else if exists|j: int|
        0 <= j < t.definition_ids@.len() && !known(definitions, #[trigger] t.definition_ids@[j]) {
        Some("test mapping references a different snapshot or missing definition"@)
    } else {
        None
    }
}

/// The first problem among test records `i..`.
pub open spec fn tests_error_from(tests: Seq<TestObservation>, i: int, definitions: Seq<String>) -> Option<
    Seq<char>,
>
    decreases tests.len() - i,
{
    if i < 0 || i >= tests.len() {
        None
    } else if test_error(tests[i], definitions) is Some {
        test_error(tests[i], definitions)
    } else {
        tests_error_from(tests, i + 1, definitions)
    }
}

/// The first problem with one event, given the previous event's sequence number.
pub open spec fn event_problem(e: TraceEvent, previous: Option<nat>, definitions: Seq<String>) -> Option<
    Seq<char>,
> {
    if number_error(e.sequence) is Some {
        number_error(e.sequence)
    } else if number_error(e.timestamp) is Some {
        number_error(e.timestamp)
    } else if previous matches Some(p) && value_of(e.sequence) <= p {
        Some("trace sequence must increase within each stream"@)
    } else if e.loss_count matches Some(l) && number_error(l) is Some {
        number_error(e.loss_count->0)
    } else if e.definition_id matches Some(d) && !known(definitions, d) {
        Some("trace mapping references a different snapshot or missing definition"@)
    } else if byte_len(e.kind) == 0 {
        Some("trace event kind is required"@)
    } else if byte_len(e.kind) > 128 || (e.correlation_id matches Some(c) && byte_len(c) > 128) {
        Some("trace event exceeds text budget"@)
    } else {
        None
    }
}

/// The sequence number before event `i`, if any.
pub open spec fn previous_sequence(events: Seq<TraceEvent>, i: int) -> Option<nat> {
    if i == 0 {
        None
    } else {
        Some(value_of(events[i - 1].sequence))
    }
}

/// The first problem among events `i..` of one stream.
pub open spec fn events_problem_from(events: Seq<TraceEvent>, i: int, definitions: Seq<String>) -> Option<
    Seq<char>,
>
    decreases events.len() - i,
{
    if i < 0 || i >= events.len() {
        None
    } else if event_problem(events[i], previous_sequence(events, i), definitions) is Some {
        event_problem(events[i], previous_sequence(events, i), definitions)
    } else {
        events_problem_from(events, i + 1, definitions)
    }
}

/// The first problem with stream `i`, given the streams before it.
pub open spec fn stream_error(streams: Seq<TraceStream>, i: int, definitions: Seq<String>) -> Option<
    Seq<char>,
> {
    let s = streams[i];
    if byte_len(s.id) > 128 || byte_len(s.process_or_device) > 128 || byte_len(s.thread_or_hart)
        > 128 || byte_len(s.clock_domain) > 128 || byte_len(s.timestamp_unit) > 128 {
        Some("stream identity exceeds text budget"@)
    } else if byte_len(s.id) == 0 || exists|j: int| 0 <= j < i && (#[trigger] streams[j]).id@ == s.id@ {
        Some("trace stream identity missing or duplicated"@)
    } else if byte_len(s.clock_domain) == 0 || byte_len(s.timestamp_unit) == 0 {
        Some("clock domain and timestamp unit are required"@)
    } else {
        events_problem_from(s.events@, 0, definitions)
    }
}

/// The first problem among streams `i..`.
pub open spec fn streams_error_from(streams: Seq<TraceStream>, i: int, definitions: Seq<String>) -> Option<
    Seq<char>,
>
    decreases streams.len() - i,
{
    if i < 0 || i >= streams.len() {
        None
    } else if stream_error(streams, i, definitions) is Some {
        stream_error(streams, i, definitions)
    } else {
        streams_error_from(streams, i + 1, definitions)
    }
}

/// The first problem with a bundle, checked in the documented order; `None` when it is
/// acceptable apart from its serialized size, which the caller checks.
#[verifier::opaque]
pub open spec fn observation_error(
    b: ObservationBundle,
    snapshot: SnapshotIdentity,
    definitions: Seq<String>,
    hash: Seq<char>,
    hash_bytes: Seq<u8>,
) -> Option<Seq<char>> {
    if b.schema_version != SCHEMA_VERSION {
        Some("unsupported observation schema"@)
    } else if b.snapshot_id@ != snapshot.id@ {
        Some("observation snapshot mismatch"@)
    } else if b.artifact.source_id@ != snapshot.source_id@ || b.artifact.context_id@
        != snapshot.context_id@ {
        Some("artifact source/context mismatch"@)
    } else if !hex_digest(hash_bytes) {
        Some("invalid artifact digest"@)
    } else if b.artifact.sha256@ != hash {
        Some("executable artifact digest mismatch"@)
    } else if blank(b.artifact.producer@) {
        Some("artifact producer is required"@)
    } else if byte_len(b.artifact.producer) > 512 {
        Some("artifact producer exceeds text budget"@)
    } else if b.limitations@.len() > 32 || exists|j: int|
        0 <= j < b.limitations@.len() && byte_len(#[trigger] b.limitations@[j]) > 1024 {
        Some("limitation text exceeds budget"@)
    } else if b.tests@.len() > 1000 || b.streams@.len() > 64 {
        Some("observation record budget exceeded"@)
    } else if total_events(b.streams@) > 10_000 {
        Some("event budget exceeded"@)
    } else if tests_error_from(b.tests@, 0, definitions) is Some {
        tests_error_from(b.tests@, 0, definitions)
    } else {
        streams_error_from(b.streams@, 0, definitions)
    }
}

// ---------------------------------------------------------------------------
// Checks
// ---------------------------------------------------------------------------

/// An error carrying `message`.
fn failure(message: &str) -> (r: Result<(), String>)
    ensures
        r matches Err(m) && m@ == message@,
{
    Err(message.to_string())
}

/// Checks that `value` is an unsigned decimal `u64` string, returning its value.
fn number(value: &String) -> (r: Result<u64, String>)
    ensures
        match r {
            Ok(v) => number_error(*value) is None && v as nat == value_of(*value),
            Err(m) => number_error(*value) == Some(m@),
        },
{
    let text = value.as_str();
    proof {
        assert(text.spec_bytes() == text_bytes(*value));
    }
    match read_u64(text) {
        Ok(v) => Ok(v),
        Err(true) => Err("timestamps and sequence numbers must be unsigned decimal strings".to_string()),
        Err(false) => Err("decimal value exceeds u64".to_string()),
    }
}

/// Whether `s` holds only white space.
fn is_blank(s: &str) -> (r: bool)
    ensures
        r == blank(s@),
{
    let n = s.unicode_len();
    let mut i: usize = 0;
    while i < n
        invariant
            n == s@.len(),
            i <= n,
            forall|j: int| 0 <= j < i ==> white(#[trigger] s@[j]),
        decreases n - i,
    {
        let c = s.get_char(i);
        let v = c as u32;
        let space = (9 <= v && v <= 13) || v == 32 || v == 0x85 || v == 0xA0 || v == 0x1680 || (
        0x2000 <= v && v <= 0x200A) || v == 0x2028 || v == 0x2029 || v == 0x202F || v == 0x205F
            || v == 0x3000;
        if !space {
            return false;
        }
        i += 1;
    }
    true
}

/// Whether `s` is sixty-four hexadecimal digits.
fn is_hex_digest(s: &str) -> (r: bool)
    ensures
        r == hex_digest(s.spec_bytes()),
{
    let bytes = s.as_bytes();
    if bytes.len() != 64 {
        return false;
    }
    let mut i: usize = 0;
    while i < bytes.len()
        invariant
            bytes@ == s.spec_bytes(),
            i <= bytes@.len(),
            forall|j: int| 0 <= j < i ==> hex(#[trigger] bytes@[j]),
        decreases bytes.len() - i,
    {
        let b = bytes[i];
        if !((48 <= b && b <= 57) || (65 <= b && b <= 70) || (97 <= b && b <= 102)) {
            return false;
        }
        i += 1;
    }
    true
}

/// Whether `id` is one of `definitions`.
fn is_known(definitions: &Vec<String>, id: &String) -> (r: bool)
    ensures
        r == known(definitions@, *id),
{
    let mut i: usize = 0;
    while i < definitions.len()
        invariant
            i <= definitions@.len(),
            forall|j: int| 0 <= j < i ==> definitions@[j]@ != id@,
        decreases definitions.len() - i,
    {
        if definitions[i] == *id {
            proof {
                assert(texts(definitions@)[i as int] == id@);
            }
            return true;
        }
        i += 1;
    }
    proof {
        if texts(definitions@).contains(id@) {
            let j = choose|j: int| 0 <= j < texts(definitions@).len() && texts(definitions@)[j] == id@;
            assert(definitions@[j]@ == id@);
        }
    }
    false
}

/// Checks one test record.
#[verifier::loop_isolation(false)]
fn check_test(t: &TestObservation, definitions: &Vec<String>) -> (r: Result<(), String>)
    ensures
        match r {
            Ok(()) => test_error(*t, definitions@) is None,
            Err(m) => test_error(*t, definitions@) == Some(m@),
        },
{
    if bytes_of(&t.name).len() == 0 {
        return failure("test identity is required");
    }
    let long_reason = match &t.reason {
        Some(r) => bytes_of(r).len() > 1024,
        None => false,
    };
    if bytes_of(&t.name).len() > 256 || long_reason || t.definition_ids.len() > 100 {
        return failure("test record exceeds budget");
    }
    match &t.elapsed_ns {
        Some(e) => match number(e) {
            Ok(_) => {},
            Err(m) => {
                return Err(m);
            },
        },
        None => {},
    }
    match &t.timeout_ns {
        Some(e) => match number(e) {
            Ok(_) => {},
            Err(m) => {
                return Err(m);
            },
        },
        None => {},
    }
    if t.outcome == TestOutcome::Timeout && t.timeout_ns.is_none() {
        return failure("timeout observations require the timeout cap");
    }
    let mut j: usize = 0;
    while j < t.definition_ids.len()
        invariant
            j <= t.definition_ids@.len(),
            forall|k: int| 0 <= k < j ==> known(definitions@, #[trigger] t.definition_ids@[k]),
        decreases t.definition_ids.len() - j,
    {
        if !is_known(definitions, &t.definition_ids[j]) {
            proof {
                assert(!known(definitions@, t.definition_ids@[j as int]));
            }
            return failure("test mapping references a different snapshot or missing definition");
        }
        j += 1;
    }
    Ok(())
}

/// Checks the events of one stream in order.
fn check_events(events: &Vec<TraceEvent>, definitions: &Vec<String>) -> (r: Result<(), String>)
    ensures
        match r {
            Ok(()) => events_problem_from(events@, 0, definitions@) is None,
            Err(m) => events_problem_from(events@, 0, definitions@) == Some(m@),
        },
{
    let mut previous: Option<u64> = None;
    let mut i: usize = 0;
    while i < events.len()
        invariant
            i <= events@.len(),
            events_problem_from(events@, 0, definitions@) == events_problem_from(
                events@,
                i as int,
                definitions@,
            ),
            i == 0 ==> previous is None,
            i > 0 ==> (previous matches Some(p) && p as nat == value_of(events@[i - 1].sequence)),
        decreases events.len() - i,
    {
        let e = &events[i];
        let ghost expected = event_problem(events@[i as int], previous_sequence(events@, i as int), definitions@);
        let sequence = match number(&e.sequence) {
            Ok(v) => v,
            Err(m) => {
                return Err(m);
            },
        };
        match number(&e.timestamp) {
            Ok(_) => {},
            Err(m) => {
                return Err(m);
            },
        }
        match previous {
            Some(p) => if sequence <= p {
                return Err("trace sequence must increase within each stream".to_string());
            },
            None => {},
        }
        match &e.loss_count {
            Some(l) => match number(l) {
                Ok(_) => {},
                Err(m) => {
                    return Err(m);
                },
            },
            None => {},
        }
        match &e.definition_id {
            Some(d) => if !is_known(definitions, d) {
                return Err(
                    "trace mapping references a different snapshot or missing definition".to_string(),
                );
            },
            None => {},
        }
        if bytes_of(&e.kind).len() == 0 {
            return Err("trace event kind is required".to_string());
        }
        let long_anchor = match &e.correlation_id {
            Some(c) => bytes_of(c).len() > 128,
            None => false,
        };
        if bytes_of(&e.kind).len() > 128 || long_anchor {
            return Err("trace event exceeds text budget".to_string());
        }
        proof {
            assert(expected is None);
        }
        previous = Some(sequence);
        i += 1;
    }
    Ok(())
}

/// Checks stream `i`, given the streams before it.
#[verifier::loop_isolation(false)]
fn check_stream(streams: &Vec<TraceStream>, i: usize, definitions: &Vec<String>) -> (r: Result<(), String>)
    requires
        i < streams@.len(),
    ensures
        match r {
            Ok(()) => stream_error(streams@, i as int, definitions@) is None,
            Err(m) => stream_error(streams@, i as int, definitions@) == Some(m@),
        },
{
    let s = &streams[i];
    if bytes_of(&s.id).len() > 128 || bytes_of(&s.process_or_device).len() > 128 || bytes_of(
        &s.thread_or_hart,
    ).len() > 128 || bytes_of(&s.clock_domain).len() > 128 || bytes_of(&s.timestamp_unit).len()
        > 128 {
        return failure("stream identity exceeds text budget");
    }
    if bytes_of(&s.id).len() == 0 {
        return failure("trace stream identity missing or duplicated");
    }
    let mut j: usize = 0;
    while j < i
        invariant
            i < streams@.len(),
            j <= i,
            forall|k: int| 0 <= k < j ==> (#[trigger] streams@[k]).id@ != streams@[i as int].id@,
        decreases i - j,
    {
        if streams[j].id == streams[i].id {
            proof {
                assert(streams@[j as int].id@ == streams@[i as int].id@);
            }
            return failure("trace stream identity missing or duplicated");
        }
        j += 1;
    }
    if bytes_of(&s.clock_domain).len() == 0 || bytes_of(&s.timestamp_unit).len() == 0 {
        return failure("clock domain and timestamp unit are required");
    }
    check_events(&s.events, definitions)
}

/// Whether the streams hold at most `cap` events in all.
fn events_within(streams: &Vec<TraceStream>, cap: usize) -> (r: bool)
    ensures
        r == (total_events(streams@) <= cap),
{
    let mut total: usize = 0;
    let mut i: usize = 0;
    while i < streams.len()
        invariant
            i <= streams@.len(),
            total as nat == total_events(streams@.take(i as int)),
            total <= cap,
        decreases streams.len() - i,
    {
        proof {
            assert(streams@.take(i as int + 1).drop_last() =~= streams@.take(i as int));
            assert(streams@.take(i as int + 1).last() == streams@[i as int]);
        }
        let count = streams[i].events.len();
        if count > cap - total {
            proof {
                lemma_total_events_prefix(streams@, i as int + 1);
            }
            return false;
        }
        total = total + count;
        i += 1;
    }
    proof {
        assert(streams@.take(i as int) =~= streams@);
    }
    true
}

/// Checks that `bundle` belongs to `snapshot` and to the artifact whose SHA-256 digest is
/// `artifact_hash`, that its mappings name selected definitions only, and that its records
/// stay within their budgets. Returns the message of the first failed check. The serialized
/// size budget is checked by the caller, which owns serialization.
#[verifier::loop_isolation(false)]
pub fn validate(
    bundle: &ObservationBundle,
    snapshot: &SnapshotIdentity,
    definitions: &Vec<String>,
    artifact_hash: &str,
) -> (r: Result<(), String>)
    ensures
        match r {
            Ok(()) => observation_error(
                *bundle,
                *snapshot,
                definitions@,
                artifact_hash@,
                artifact_hash.spec_bytes(),
            ) is None,
            Err(m) => observation_error(
                *bundle,
                *snapshot,
                definitions@,
                artifact_hash@,
                artifact_hash.spec_bytes(),
            ) == Some(m@),
        },
{
    proof {
        reveal(observation_error);
    }
    if bundle.schema_version != SCHEMA_VERSION {
        return failure("unsupported observation schema");
    }
    if bundle.snapshot_id != snapshot.id {
        return failure("observation snapshot mismatch");
    }
    if bundle.artifact.source_id != snapshot.source_id || bundle.artifact.context_id
        != snapshot.context_id {
        return failure("artifact source/context mismatch");
    }
    if !is_hex_digest(artifact_hash) {
        return failure("invalid artifact digest");
    }
    if !text_is(bundle.artifact.sha256.as_str(), artifact_hash) {
        return failure("executable artifact digest mismatch");
    }
    if is_blank(bundle.artifact.producer.as_str()) {
        return failure("artifact producer is required");
    }
    if bytes_of(&bundle.artifact.producer).len() > 512 {
        return failure("artifact producer exceeds text budget");
    }
    if bundle.limitations.len() > 32 {
        return failure("limitation text exceeds budget");
    }
    let mut k: usize = 0;
    while k < bundle.limitations.len()
        invariant
            k <= bundle.limitations@.len(),
            forall|j: int| 0 <= j < k ==> byte_len(#[trigger] bundle.limitations@[j]) <= 1024,
        decreases bundle.limitations.len() - k,
    {
        if bytes_of(&bundle.limitations[k]).len() > 1024 {
            proof {
                assert(byte_len(bundle.limitations@[k as int]) > 1024);
            }
            return failure("limitation text exceeds budget");
        }
        k += 1;
    }
    if bundle.tests.len() > 1000 || bundle.streams.len() > 64 {
        return failure("observation record budget exceeded");
    }
    if !events_within(&bundle.streams, 10_000) {
        return failure("event budget exceeded");
    }
    let mut i: usize = 0;
    while i < bundle.tests.len()
        invariant
            i <= bundle.tests@.len(),
            tests_error_from(bundle.tests@, 0, definitions@) == tests_error_from(
                bundle.tests@,
                i as int,
                definitions@,
            ),
        decreases bundle.tests.len() - i,
    {
        match check_test(&bundle.tests[i], definitions) {
            Ok(()) => {},
            Err(m) => {
                return Err(m);
            },
        }
        i += 1;
    }
    let mut s: usize = 0;
    while s < bundle.streams.len()
        invariant
            s <= bundle.streams@.len(),
            streams_error_from(bundle.streams@, 0, definitions@) == streams_error_from(
                bundle.streams@,
                s as int,
                definitions@,
            ),
        decreases bundle.streams.len() - s,
    {
        match check_stream(&bundle.streams, s, definitions) {
            Ok(()) => {},
            Err(m) => {
                return Err(m);
            },
        }
        s += 1;
    }
    Ok(())
}


proof fn lemma_tests_accepted(tests: Seq<TestObservation>, i: int, definitions: Seq<String>)
    requires
        0 <= i,
        tests_error_from(tests, i, definitions) is None,
    ensures
        forall|x: int| i <= x < tests.len() ==> test_error(#[trigger] tests[x], definitions) is None,
    decreases tests.len() - i,
{
    if i < tests.len() {
        lemma_tests_accepted(tests, i + 1, definitions);
    }
}

/// Whether `id` has the text of one of `definitions`.
pub open spec fn listed(definitions: Seq<String>, id: String) -> bool {
    exists|k: int| 0 <= k < definitions.len() && definitions[k]@ == id@
}

/// Whether every definition id that a test record lists is one of `definitions`.
pub open spec fn tests_name_known(tests: Seq<TestObservation>, definitions: Seq<String>) -> bool {
    forall|i: int, j: int|
        0 <= i < tests.len() && 0 <= j < tests[i].definition_ids@.len() ==> listed(definitions, #[trigger] tests[i].definition_ids@[j])
}

/// Whether a test record is well formed: a named identity within 256 bytes, at most 100
/// definition ids, a reason within 1024 bytes, and a timeout cap on every timeout.
pub open spec fn test_well_formed(t: TestObservation) -> bool {
    &&& 0 < text_bytes(t.name).len() <= 256
    &&& t.definition_ids@.len() <= 100
    &&& (t.reason matches Some(r) ==> text_bytes(r).len() <= 1024)
    &&& (t.outcome == TestOutcome::Timeout ==> t.timeout_ns is Some)
}

/// An accepted bundle maps its tests to the snapshot's definitions only: every definition
/// id that any test record lists is one of `definitions`; and every test record is well
/// formed.
pub proof fn law_accepted_tests_name_known_definitions(
    b: ObservationBundle,
    snapshot: SnapshotIdentity,
    definitions: Seq<String>,
    hash: Seq<char>,
    hash_bytes: Seq<u8>,
)
    requires
        observation_error(b, snapshot, definitions, hash, hash_bytes) is None,
    ensures
        tests_name_known(b.tests@, definitions),
        forall|i: int| 0 <= i < b.tests@.len() ==> test_well_formed(#[trigger] b.tests@[i]),
{
    let tests = b.tests@;
    assert(tests_error_from(tests, 0, definitions) is None) by {
        reveal(observation_error);
    }
    lemma_tests_accepted(tests, 0, definitions);
    assert forall|i: int, j: int|
        0 <= i < tests.len() && 0 <= j < tests[i].definition_ids@.len() implies listed(definitions, #[trigger] tests[i].definition_ids@[j]) by {
        assert(test_error(tests[i], definitions) is None);
        let id = tests[i].definition_ids@[j];
        assert(known(definitions, id));
        let k = choose|k: int| 0 <= k < texts(definitions).len() && texts(definitions)[k] == id@;
        assert(0 <= k < definitions.len());
        assert(definitions[k]@ == id@);
    }
    assert forall|i: int| 0 <= i < tests.len() implies test_well_formed(#[trigger] tests[i]) by {
        assert(test_error(tests[i], definitions) is None);
    }
}

} // verus!
