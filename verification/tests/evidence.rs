use atlas::evidence::{validate, SnapshotIdentity};
use atlas::listing::{summary, window};
use atlas::observation::{
    ArtifactIdentity, ObservationBundle, TestObservation, TestOutcome, TraceEvent, TraceStream,
};
use sha2::{Digest, Sha256};

fn fixture() -> (SnapshotIdentity, ObservationBundle, Vec<String>) {
    let snapshot = SnapshotIdentity {
        id: "snapshot:fixture".into(),
        source_id: "source:fixture".into(),
        context_id: "context:fixture".into(),
    };
    let definition = "definition:fixture".to_string();
    let bundle = ObservationBundle {
        schema_version: 1,
        snapshot_id: snapshot.id.clone(),
        artifact: ArtifactIdentity {
            sha256: format!("{:x}", Sha256::digest(b"artifact")),
            source_id: snapshot.source_id.clone(),
            context_id: snapshot.context_id.clone(),
            producer: "fixture-test-runner".into(),
        },
        tests: vec![TestObservation {
            name: "dispatch".into(),
            outcome: TestOutcome::Pass,
            elapsed_ns: Some("9007199254740993".into()),
            timeout_ns: None,
            reason: None,
            definition_ids: vec![definition.clone()],
        }],
        streams: vec![TraceStream {
            id: "cpu0".into(),
            process_or_device: "test".into(),
            thread_or_hart: "0".into(),
            clock_domain: "cpu-clock".into(),
            timestamp_unit: "ns".into(),
            events: vec![TraceEvent {
                sequence: "1".into(),
                timestamp: "9007199254740993".into(),
                kind: "enter".into(),
                definition_id: Some(definition.clone()),
                correlation_id: None,
                loss_count: Some("0".into()),
            }],
        }],
        limitations: vec![],
    };
    (snapshot, bundle, vec![definition])
}

#[test]
fn rejects_wrong_artifact_context_and_source() {
    let (snapshot, mut bundle, definitions) = fixture();
    let hash = bundle.artifact.sha256.clone();
    assert!(validate(&bundle, &snapshot, &definitions, &hash).is_ok());
    assert!(validate(&bundle, &snapshot, &definitions, &"0".repeat(64)).is_err());
    bundle.artifact.context_id = "other".into();
    assert!(validate(&bundle, &snapshot, &definitions, &hash).is_err());
    bundle.artifact.context_id = snapshot.context_id.clone();
    bundle.artifact.source_id = "other".into();
    assert!(validate(&bundle, &snapshot, &definitions, &hash).is_err());
}

#[test]
fn preserves_decimal_precision_and_independent_clocks() {
    let (snapshot, mut bundle, definitions) = fixture();
    let hash = bundle.artifact.sha256.clone();
    let mut other = bundle.streams[0].clone();
    other.id = "device0".into();
    other.clock_domain = "device-cycles".into();
    other.timestamp_unit = "cycles".into();
    other.events[0].timestamp = "2".into();
    bundle.streams.push(other);
    assert!(validate(&bundle, &snapshot, &definitions, &hash).is_ok());
    assert_eq!(bundle.tests[0].elapsed_ns.as_deref(), Some("9007199254740993"));
    assert_eq!(summary("id", &bundle).clock_domains.len(), 2);
    let duplicate = bundle.streams[0].events[0].clone();
    bundle.streams[0].events.push(duplicate);
    assert!(validate(&bundle, &snapshot, &definitions, &hash).is_err());
}

#[test]
fn outcomes_and_missing_mapping_are_not_coerced() {
    let (snapshot, mut bundle, definitions) = fixture();
    let hash = bundle.artifact.sha256.clone();
    bundle.tests[0].outcome = TestOutcome::Timeout;
    assert!(validate(&bundle, &snapshot, &definitions, &hash).is_err());
    bundle.tests[0].timeout_ns = Some("1000".into());
    assert!(validate(&bundle, &snapshot, &definitions, &hash).is_ok());
    bundle.streams[0].events[0].definition_id = Some("missing".into());
    assert!(validate(&bundle, &snapshot, &definitions, &hash).is_err());
}

#[test]
fn each_validation_failure_names_its_check() {
    let (snapshot, bundle, definitions) = fixture();
    let hash = bundle.artifact.sha256.clone();
    let mut wrong = bundle.clone();
    wrong.schema_version = 2;
    assert_eq!(
        validate(&wrong, &snapshot, &definitions, &hash),
        Err("unsupported observation schema".to_string())
    );
    let mut wrong = bundle.clone();
    wrong.snapshot_id = "snapshot:other".into();
    assert_eq!(
        validate(&wrong, &snapshot, &definitions, &hash),
        Err("observation snapshot mismatch".to_string())
    );
    assert_eq!(
        validate(&bundle, &snapshot, &definitions, "not-hex"),
        Err("invalid artifact digest".to_string())
    );
    let mut wrong = bundle.clone();
    wrong.artifact.producer = "  ".into();
    assert_eq!(
        validate(&wrong, &snapshot, &definitions, &hash),
        Err("artifact producer is required".to_string())
    );
}

#[test]
fn windows_page_tests_then_events_and_report_the_next_offset() {
    let (_, bundle, _) = fixture();
    let page = window(&bundle, "observation:one", 0, 1).unwrap();
    assert_eq!(page.tests.len(), 1);
    assert!(page.streams.is_empty());
    assert!(page.truncated);
    assert_eq!(page.next_offset, Some(1));
    let next = window(&bundle, "observation:one", 1, 1).unwrap();
    assert!(next.tests.is_empty());
    assert_eq!(next.streams[0].events[0].sequence, "1");
    assert!(!next.truncated);
    assert_eq!(next.next_offset, None);
    assert!(window(&bundle, "observation:one", 3, 1).is_err());
    assert!(window(&bundle, "observation:one", 0, 0).is_err());
    assert!(window(&bundle, "observation:one", 0, 201).is_err());
}

#[test]
fn summaries_count_records_and_add_the_standing_limitations() {
    let (_, mut bundle, _) = fixture();
    bundle.limitations.push("imported from a fixture".into());
    let s = summary("observation:one", &bundle);
    assert_eq!(s.id, "observation:one");
    assert_eq!(s.test_count, 1);
    assert_eq!(s.event_count, 1);
    assert_eq!(s.clock_domains, vec!["cpu-clock".to_string()]);
    assert_eq!(s.limitations.len(), 3);
    assert_eq!(s.limitations[0], "imported from a fixture");
}
