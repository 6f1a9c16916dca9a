//! Imported run observations: test outcomes and per-stream trace events.
use vstd::prelude::*;

verus! {

/// The observation bundle format this library reads.
pub const SCHEMA_VERSION: u32 = 1;

/// The executable artifact that produced a set of observations.
#[derive(Debug)]
pub struct ArtifactIdentity {
    pub sha256: String,
    pub source_id: String,
    pub context_id: String,
    pub producer: String,
}

/// One trace event. Sequence, timestamp and loss count are decimal `u64` strings.
#[derive(Debug)]
pub struct TraceEvent {
    pub sequence: String,
    pub timestamp: String,
    pub kind: String,
    pub definition_id: Option<String>,
    pub correlation_id: Option<String>,
    pub loss_count: Option<String>,
}

/// Events of one process/thread in one clock domain.
#[derive(Debug)]
pub struct TraceStream {
    pub id: String,
    pub process_or_device: String,
    pub thread_or_hart: String,
    pub clock_domain: String,
    pub timestamp_unit: String,
    pub events: Vec<TraceEvent>,
}

/// How one test run ended.
#[derive(Debug, Clone, Copy, PartialEq, Eq, Structural)]
pub enum TestOutcome {
    Pass,
    Fail,
    Timeout,
    Skipped,
}

/// One observed test run.
#[derive(Debug)]
pub struct TestObservation {
    pub name: String,
    pub outcome: TestOutcome,
    pub elapsed_ns: Option<String>,
    pub timeout_ns: Option<String>,
    pub reason: Option<String>,
    pub definition_ids: Vec<String>,
}

/// Observations imported for one snapshot and artifact.
#[derive(Debug)]
pub struct ObservationBundle {
    pub schema_version: u32,
    pub snapshot_id: String,
    pub artifact: ArtifactIdentity,
    pub tests: Vec<TestObservation>,
    pub streams: Vec<TraceStream>,
    pub limitations: Vec<String>,
}

/// A copy of an optional string.
pub fn copy_text(o: &Option<String>) -> (r: Option<String>)
    ensures
        r == *o,
{
    match o {
        Some(s) => Some(s.clone()),
        None => None,
    }
}

/// A copy of a list of strings.
pub fn copy_texts(v: &Vec<String>) -> (r: Vec<String>)
    ensures
        r@ == v@,
{
    let mut out: Vec<String> = Vec::new();
    let mut i: usize = 0;
    while i < v.len()
        invariant
            i <= v@.len(),
            out@ == v@.take(i as int),
        decreases v.len() - i,
    {
        out.push(v[i].clone());
        proof {
            assert(v@.take(i as int + 1) =~= v@.take(i as int).push(v@[i as int]));
        }
        i += 1;
    }
    proof {
        assert(v@.take(v@.len() as int) =~= v@);
    }
    out
}

impl Clone for ArtifactIdentity {
    fn clone(&self) -> (r: Self)
        ensures
            r == *self,
    {
        ArtifactIdentity {
            sha256: self.sha256.clone(),
            source_id: self.source_id.clone(),
            context_id: self.context_id.clone(),
            producer: self.producer.clone(),
        }
    }
}

impl Clone for TraceEvent {
    fn clone(&self) -> (r: Self)
        ensures
            r == *self,
    {
        TraceEvent {
            sequence: self.sequence.clone(),
            timestamp: self.timestamp.clone(),
            kind: self.kind.clone(),
            definition_id: copy_text(&self.definition_id),
            correlation_id: copy_text(&self.correlation_id),
            loss_count: copy_text(&self.loss_count),
        }
    }
}

/// A copy of a list of events.
pub fn copy_events(v: &Vec<TraceEvent>) -> (r: Vec<TraceEvent>)
    ensures
        r@ == v@,
{
    let mut out: Vec<TraceEvent> = Vec::new();
    let mut i: usize = 0;
    while i < v.len()
        invariant
            i <= v@.len(),
            out@ == v@.take(i as int),
        decreases v.len() - i,
    {
        out.push(v[i].clone());
        proof {
            assert(v@.take(i as int + 1) =~= v@.take(i as int).push(v@[i as int]));
        }
        i += 1;
    }
    proof {
        assert(v@.take(v@.len() as int) =~= v@);
    }
    out
}

impl Clone for TraceStream {
    fn clone(&self) -> (r: Self)
        ensures
            r.id == self.id,
            r.process_or_device == self.process_or_device,
            r.thread_or_hart == self.thread_or_hart,
            r.clock_domain == self.clock_domain,
            r.timestamp_unit == self.timestamp_unit,
            r.events@ == self.events@,
    {
        TraceStream {
            id: self.id.clone(),
            process_or_device: self.process_or_device.clone(),
            thread_or_hart: self.thread_or_hart.clone(),
            clock_domain: self.clock_domain.clone(),
            timestamp_unit: self.timestamp_unit.clone(),
            events: copy_events(&self.events),
        }
    }
}

impl Clone for TestObservation {
    fn clone(&self) -> (r: Self)
        ensures
            r.name == self.name,
            r.outcome == self.outcome,
            r.elapsed_ns == self.elapsed_ns,
            r.timeout_ns == self.timeout_ns,
            r.reason == self.reason,
            r.definition_ids@ == self.definition_ids@,
    {
        TestObservation {
            name: self.name.clone(),
            outcome: self.outcome,
            elapsed_ns: copy_text(&self.elapsed_ns),
            timeout_ns: copy_text(&self.timeout_ns),
            reason: copy_text(&self.reason),
            definition_ids: copy_texts(&self.definition_ids),
        }
    }
}

/// Equal streams up to the identity of their event vectors.
pub open spec fn same_stream(a: TraceStream, b: TraceStream) -> bool {
    a.id == b.id && a.process_or_device == b.process_or_device && a.thread_or_hart
        == b.thread_or_hart && a.clock_domain == b.clock_domain && a.timestamp_unit
        == b.timestamp_unit && a.events@ == b.events@
}

/// A copy of a list of streams.
pub fn copy_streams(v: &Vec<TraceStream>) -> (r: Vec<TraceStream>)
    ensures
        r@.len() == v@.len(),
        forall|i: int| 0 <= i < v@.len() ==> same_stream(#[trigger] r@[i], v@[i]),
{
    let mut out: Vec<TraceStream> = Vec::new();
    let mut i: usize = 0;
    while i < v.len()
        invariant
            i <= v@.len(),
            out@.len() == i,
            forall|j: int| 0 <= j < i ==> same_stream(#[trigger] out@[j], v@[j]),
        decreases v.len() - i,
    {
        out.push(v[i].clone());
        i += 1;
    }
    out
}

/// A copy of a list of test observations.
pub fn copy_tests(v: &Vec<TestObservation>) -> (r: Vec<TestObservation>)
    ensures
        r@.len() == v@.len(),
{
    let mut out: Vec<TestObservation> = Vec::new();
    let mut i: usize = 0;
    while i < v.len()
        invariant
            i <= v@.len(),
            out@.len() == i,
        decreases v.len() - i,
    {
        out.push(v[i].clone());
        i += 1;
    }
    out
}

impl Clone for ObservationBundle {
    fn clone(&self) -> (r: Self)
        ensures
            r.schema_version == self.schema_version,
            r.snapshot_id == self.snapshot_id,
            r.artifact == self.artifact,
            r.limitations@ == self.limitations@,
    {
        ObservationBundle {
            schema_version: self.schema_version,
            snapshot_id: self.snapshot_id.clone(),
            artifact: self.artifact.clone(),
            tests: copy_tests(&self.tests),
            streams: copy_streams(&self.streams),
            limitations: copy_texts(&self.limitations),
        }
    }
}

} // verus!
