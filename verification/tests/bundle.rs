use atlas::bundle::{
    invocation_args, seal_bodies, validate, CompilerArtifact, BuildSelection, CapturedSource, CompilerBundle, CompilerDefinitionMapping, CompilerImport,
    CompilerInputs, CrateInput, Snapshot, SourceDefinition,
};
use atlas::compiler::{
    CompilerBlock, CompilerBody, CompilerCallTarget, CompilerEdgeKind, CompilerIdentity, CompilerLocal, CompilerLocalEffects,
    CompilerSourceMapping, CompilerSourceScope, CompilerStatement, CompilerSuccessor, CompilerTerminator,
    CompilerUnknownEffect,
    CompilerUnwind,
};
use atlas::model::{CfgStatus, Status, UnknownReason};
use atlas::capture::CompilerSourceFile;
use sha2::{Digest, Sha256};

const COMMIT: &str = "55e86c996809902e8bbad512cfb4d2c18be446d9";
const TEXT: &str = "pub fn entry() {}\r\n";

fn sha(bytes: &[u8]) -> String {
    format!("{:x}", Sha256::digest(bytes))
}

fn exact(start: u32, end: u32) -> CompilerSourceMapping {
    CompilerSourceMapping::Exact { path: "lib.rs".into(), start_byte: start, end_byte: end }
}

#[derive(Clone)]
struct Fixture {
    bundle: CompilerBundle,
    snapshot: Snapshot,
    files: Vec<CapturedSource>,
    definitions: Vec<SourceDefinition>,
    manifest: Vec<u8>,
}

fn fixture() -> Fixture {
    let files = vec![CapturedSource { id: "file:one".into(), path: "lib.rs".into(), text: TEXT.into() }];
    let snapshot = Snapshot {
        id: "analysis:one".into(),
        context: BuildSelection {
            id: "context:one".into(),
            target: "x86_64-unknown-linux-gnu".into(),
            features: vec![],
            default_features: false,
            cfg: vec![],
            crates: vec![CrateInput { name: "fixture".into(), root_file: "lib.rs".into(), edition: "2021".into() }],
        },
    };
    let definitions = vec![SourceDefinition {
        id: "definition:entry".into(),
        kind: "function".into(),
        file_id: "file:one".into(),
        cfg_status: CfgStatus::Active,
        start: 0,
        end: 17,
    }];
    let body = CompilerBody {
        body_id: String::new(),
        def_path: "fixture::entry".into(),
        kind: "function".into(),
        span: exact(0, 17),
        argument_count: 0,
        locals: vec![CompilerLocal {
            index: 0,
            role: "return".into(),
            names: vec![],
            type_display: "()".into(),
            source_scope: 0,
            span: exact(0, 17),
        }],
        source_scopes: vec![CompilerSourceScope { index: 0, parent: None, span: exact(0, 17), inlined_def_path: None }],
        blocks: vec![CompilerBlock {
            index: 0,
            is_cleanup: false,
            statements: vec![],
            terminator: CompilerTerminator {
                kind: "return".into(),
                source_scope: 0,
                span: exact(0, 17),
                locals: CompilerLocalEffects::default(),
                normal_return_defs: vec![],
                successors: vec![],
                unwind: None,
                call_target: None,
                assert_expected: None,
            },
        }],
    };
    let bundle = CompilerBundle {
        schema_version: 1,
        compiler: CompilerIdentity {
            adapter: "atlas-rustc".into(),
            adapter_version: "0.1.0".into(),
            release: "1.96.0-nightly".into(),
            commit_hash: COMMIT.into(),
            commit_date: "2026-04-02".into(),
            host: "x86_64-unknown-linux-gnu".into(),
            llvm_version: "22.1.2".into(),
        },
        inputs: CompilerInputs {
            manifest_hash: String::new(),
            files: vec![CompilerSourceFile {
                path: "lib.rs".into(),
                sha256: sha(TEXT.as_bytes()),
                byte_length: TEXT.len() as u32,
            }],
            crate_name: "fixture".into(),
            crate_root: "lib.rs".into(),
            edition: "2021".into(),
            target: "x86_64-unknown-linux-gnu".into(),
            panic_strategy: "unwind".into(),
            mir_opt_level: 0,
            rustc_args: vec![
                "atlas-rustc".into(),
                "./lib.rs".into(),
                "--crate-name".into(),
                "fixture".into(),
                "--crate-type=lib".into(),
                "--edition=2021".into(),
                "--target=x86_64-unknown-linux-gnu".into(),
                "-Cpanic=unwind".into(),
                "-Copt-level=0".into(),
                "-Coverflow-checks=yes".into(),
                "-Zmir-opt-level=0".into(),
                "--emit=metadata".into(),
                "--sysroot".into(),
                format!("compiler:{COMMIT}:x86_64-unknown-linux-gnu"),
                "--error-format=json".into(),
            ],
            environment_policy: "empty".into(),
            trust: "trusted_local".into(),
            compiled_artifact: None,
        },
        phase: "runtime_optimized".into(),
        bodies: vec![body],
        limitations: vec!["Hand-authored import validator fixture.".into()],
    };
    let mut fixture = Fixture { bundle, snapshot, files, definitions, manifest: vec![] };
    seal(&mut fixture);
    fixture
}

/// The bytes that stand for the serialized compiler identity, phase and inputs (with an
/// empty manifest hash).
fn manifest_of(bundle: &CompilerBundle) -> Vec<u8> {
    let mut inputs = bundle.inputs.clone();
    inputs.manifest_hash.clear();
    format!("{:?}", (&bundle.compiler, &bundle.phase, &inputs)).into_bytes()
}

fn seal(fixture: &mut Fixture) {
    fixture.manifest = manifest_of(&fixture.bundle);
    fixture.bundle.inputs.manifest_hash = sha(&fixture.manifest);
    let hash = fixture.bundle.inputs.manifest_hash.clone();
    for body in &mut fixture.bundle.bodies {
        let pair = serde_json::to_vec(&(&hash, &body.def_path)).unwrap();
        body.body_id = format!("mir:{}", sha(&pair));
    }
}

fn run(f: &Fixture) -> Result<CompilerImport, String> {
    validate_bundle(&f.bundle, &f.snapshot, &f.files, &f.definitions)
}

fn validate_bundle(
    bundle: &CompilerBundle,
    snapshot: &Snapshot,
    files: &[CapturedSource],
    definitions: &[SourceDefinition],
) -> Result<CompilerImport, String> {
    let bytes = format!("{bundle:?}").len();
    validate(bundle.clone(), snapshot, &files.to_vec(), &definitions.to_vec(), bytes, &manifest_of(bundle))
}

fn refused(f: &Fixture) -> String {
    run(f).err().expect("the bundle should be refused")
}

#[test]
fn matching_bundle_is_accepted_and_maps_its_body() {
    let f = fixture();
    let imported = run(&f).unwrap();
    assert_eq!(imported.snapshot_id, "analysis:one");
    assert_eq!(imported.context_id, "context:one");
    assert_eq!(imported.mappings.len(), 1);
    assert_eq!(imported.mappings[0].body_id, f.bundle.bodies[0].body_id);
    assert!(matches!(
        &imported.mappings[0].mapping,
        CompilerDefinitionMapping::Matched { definition_id } if definition_id == "definition:entry"
    ));
    assert_eq!(imported.coverage.status, Status::Partial);
    assert_eq!(imported.coverage.reasons.len(), 1);
    assert_eq!(imported.coverage.reasons[0].reason, UnknownReason::UnsupportedConstruct);
    assert_eq!(imported.coverage.limitations.len(), 2);
    assert_eq!(imported.coverage.limitations[1], "Hand-authored import validator fixture.");
    assert_eq!(imported.bundle.bodies[0].def_path, "fixture::entry");
}

#[test]
fn ambiguous_mappings_and_unavailable_origins_are_not_guessed() {
    let mut f = fixture();
    let mut other = f.definitions[0].clone();
    other.id = "definition:other".into();
    f.definitions.push(other);
    let imported = run(&f).unwrap();
    assert!(matches!(imported.mappings[0].mapping, CompilerDefinitionMapping::Unmapped { .. }));
    f.definitions.truncate(1);
    f.bundle.bodies[0].span = CompilerSourceMapping::Unavailable { reason: "macro origin".into() };
    let imported = run(&f).unwrap();
    assert!(matches!(imported.mappings[0].mapping, CompilerDefinitionMapping::Unmapped { .. }));
}

#[test]
fn the_narrowest_enclosing_definition_is_chosen() {
    let mut f = fixture();
    let mut outer = f.definitions[0].clone();
    outer.id = "definition:outer".into();
    outer.end = 19;
    f.definitions.insert(0, outer);
    let mut closure = f.definitions[1].clone();
    closure.id = "definition:closure".into();
    closure.kind = "closure".into();
    closure.end = 17;
    f.definitions.push(closure);
    let mut inactive = f.definitions[1].clone();
    inactive.id = "definition:inactive".into();
    inactive.cfg_status = CfgStatus::Inactive;
    f.definitions.push(inactive);
    let imported = run(&f).unwrap();
    assert!(matches!(
        &imported.mappings[0].mapping,
        CompilerDefinitionMapping::Matched { definition_id } if definition_id == "definition:entry"
    ));
}

#[test]
fn each_producer_context_and_policy_mismatch_names_its_check() {
    let mut f = fixture();
    f.files[0].text = "pub fn entry() {}\n\n".into();
    assert_eq!(refused(&f), "compiler source bytes do not match the selected snapshot");
    let mut f = fixture();
    f.snapshot.context.target = "aarch64-unknown-linux-gnu".into();
    assert_eq!(refused(&f), "compiler target does not match the selected context; select an explicit target");
    let mut f = fixture();
    f.snapshot.context.default_features = true;
    assert!(refused(&f).starts_with("compiler import requires explicit --no-default-features"));
    let mut f = fixture();
    f.snapshot.context.crates[0].edition = "2018".into();
    assert_eq!(refused(&f), "compiler crate root/name/edition does not match the selected context");
    let mut f = fixture();
    f.bundle.compiler.commit_hash = "0".repeat(40);
    assert_eq!(refused(&f), "unsupported compiler producer or MIR phase");
    let mut f = fixture();
    f.bundle.phase = "built".into();
    assert_eq!(refused(&f), "unsupported compiler producer or MIR phase");
    let mut f = fixture();
    f.bundle.schema_version = 2;
    assert_eq!(refused(&f), "unsupported compiler schema");
    let mut f = fixture();
    f.bundle.inputs.trust = "remote".into();
    assert_eq!(refused(&f), "unsupported compiler input policy");
    let mut f = fixture();
    f.bundle.inputs.mir_opt_level = 2;
    assert_eq!(refused(&f), "unsupported compiler phase settings");
    let f = fixture();
    let oversized = validate(f.bundle.clone(), &f.snapshot, &f.files, &f.definitions, 33_554_433, &f.manifest);
    assert_eq!(oversized.err().unwrap(), "compiler bundle exceeds 32 MiB");
}

#[test]
fn dashed_crate_names_match_their_underscored_compiler_names() {
    let mut f = fixture();
    f.snapshot.context.crates[0].name = "fix-ture".into();
    f.bundle.inputs.crate_name = "fix_ture".into();
    f.bundle.inputs.rustc_args[3] = "fix_ture".into();
    seal(&mut f);
    assert!(run(&f).is_ok());
    f.bundle.inputs.crate_name = "fix-ture".into();
    seal(&mut f);
    assert_eq!(refused(&f), "compiler crate root/name/edition does not match the selected context");
}

#[test]
fn cfg_arguments_are_exact_sorted_deduplicated_and_context_pinned() {
    let mut f = fixture();
    f.snapshot.context.features = vec!["fast".into()];
    f.snapshot.context.cfg = vec![("firmware".into(), None)];
    f.bundle.inputs.rustc_args.extend(["--cfg", "feature=\"fast\"", "--cfg", "firmware"].map(String::from));
    seal(&mut f);
    assert!(run(&f).is_ok());
    let mut duplicate = Fixture { bundle: f.bundle.clone(), snapshot: f.snapshot.clone(), files: f.files.clone(), definitions: f.definitions.clone(), manifest: f.manifest.clone() };
    duplicate.bundle.inputs.rustc_args.extend(["--cfg", "firmware"].map(String::from));
    assert_eq!(refused(&duplicate), "compiler cfg/features do not match the selected context");
    let mut reordered = Fixture { bundle: f.bundle.clone(), snapshot: f.snapshot.clone(), files: f.files.clone(), definitions: f.definitions.clone(), manifest: f.manifest.clone() };
    reordered.bundle.inputs.rustc_args.swap(16, 18);
    assert_eq!(refused(&reordered), "compiler cfg/features do not match the selected context");
    let mut missing = Fixture { bundle: f.bundle.clone(), snapshot: f.snapshot.clone(), files: f.files.clone(), definitions: f.definitions.clone(), manifest: f.manifest.clone() };
    missing.bundle.inputs.rustc_args.truncate(17);
    assert_eq!(refused(&missing), "compiler cfg/features do not match the selected context");
    let mut trailing = Fixture { bundle: f.bundle.clone(), snapshot: f.snapshot.clone(), files: f.files.clone(), definitions: f.definitions.clone(), manifest: f.manifest.clone() };
    trailing.bundle.inputs.rustc_args.push("--cfg".into());
    assert_eq!(refused(&trailing), "missing compiler cfg value");
    let mut joined = f;
    joined.bundle.inputs.rustc_args.push("--cfg=test".into());
    assert_eq!(refused(&joined), "compiler cfg must use the supported paired argument contract");
}

#[test]
fn cfg_values_are_compared_as_json_strings() {
    let mut f = fixture();
    f.snapshot.context.cfg = vec![("target_os".into(), Some("linux".into()))];
    f.bundle.inputs.rustc_args.extend(["--cfg", "target_os=\"linux\""].map(String::from));
    seal(&mut f);
    assert!(run(&f).is_ok());
    f.bundle.inputs.rustc_args[16] = "target_os=linux".into();
    seal(&mut f);
    assert_eq!(refused(&f), "compiler cfg/features do not match the selected context");
}

#[test]
fn manifest_checksum_and_body_identity_are_checked() {
    let mut f = fixture();
    f.bundle.inputs.manifest_hash = "wrong".into();
    assert_eq!(refused(&f), "compiler input manifest checksum mismatch");
    let mut f = fixture();
    f.bundle.compiler.release = "1.97.0-nightly".into();
    assert_eq!(refused(&f), "compiler input manifest checksum mismatch");
    let mut f = fixture();
    f.bundle.bodies[0].body_id = "mir:0".into();
    assert_eq!(refused(&f), "compiler body identity mismatch");
    let mut f = fixture();
    let twin = f.bundle.bodies[0].clone();
    f.bundle.bodies.push(twin);
    assert_eq!(refused(&f), "compiler body identity mismatch");
}

#[test]
fn manifest_paths_must_be_relative_captured_and_distinct() {
    for path in ["../lib.rs", "/lib.rs", "./lib.rs", "", "a/../lib.rs"] {
        let mut f = fixture();
        f.bundle.inputs.files[0].path = path.into();
        seal(&mut f);
        assert_eq!(refused(&f), "compiler source path is not relative", "{path}");
    }
    let mut f = fixture();
    f.bundle.inputs.files[0].path = "main.rs".into();
    seal(&mut f);
    assert_eq!(refused(&f), "compiler source is not captured in the selected snapshot");
    let mut f = fixture();
    let twin = f.bundle.inputs.files[0].clone();
    f.bundle.inputs.files.push(twin);
    seal(&mut f);
    assert_eq!(refused(&f), "duplicate compiler source path");
    let mut f = fixture();
    f.files.push(CapturedSource { id: "file:two".into(), path: "main.rs".into(), text: "fn main() {}".into() });
    f.bundle.inputs.files[0] = CompilerSourceFile {
        path: "main.rs".into(),
        sha256: sha(b"fn main() {}"),
        byte_length: 12,
    };
    seal(&mut f);
    assert_eq!(refused(&f), "compiler crate root is absent from manifest");
}

#[test]
fn each_malformed_body_record_names_its_check() {
    let mut f = fixture();
    f.bundle.bodies[0].locals.clear();
    assert_eq!(refused(&f), "invalid compiler locals");
    let mut f = fixture();
    f.bundle.bodies[0].source_scopes[0].parent = Some(0);
    assert_eq!(refused(&f), "invalid compiler scope tree");
    let mut f = fixture();
    f.bundle.bodies[0].locals[0].source_scope = 3;
    assert_eq!(refused(&f), "invalid compiler local/scope identity");
    let mut f = fixture();
    f.bundle.bodies[0].blocks[0].index = 1;
    assert_eq!(refused(&f), "invalid compiler block identity");
    let mut f = fixture();
    f.bundle.bodies[0].blocks[0].terminator.locals.uses = vec![4];
    assert_eq!(refused(&f), "compiler local reference out of range");
    let mut f = fixture();
    f.bundle.bodies[0].blocks[0].terminator.successors =
        vec![CompilerSuccessor { target: 9, kind: CompilerEdgeKind::Normal, switch_value: None }];
    f.bundle.bodies[0].blocks[0].terminator.kind = "goto".into();
    assert_eq!(refused(&f), "compiler successor is outside its body");
    let mut f = fixture();
    f.bundle.bodies[0].span = exact(0, 999);
    assert_eq!(refused(&f), "invalid compiler UTF-8 byte span");
    let mut f = fixture();
    f.bundle.bodies[0].span = CompilerSourceMapping::Exact { path: "other.rs".into(), start_byte: 0, end_byte: 1 };
    assert_eq!(refused(&f), "compiler span refers to an uncaptured file");
}

#[test]
fn invocation_records_pinned_flags_then_paired_cfg_values() {
    let args = invocation_args(
        &"lib.rs".into(),
        &"fixture".into(),
        &"2021".into(),
        &"x86_64-unknown-linux-gnu".into(),
        &"unwind".into(),
        &"compiler:sysroot".into(),
        &vec!["feature=\"fast\"".into(), "firmware".into()],
    );
    let expected: Vec<String> = [
        "atlas-rustc",
        "lib.rs",
        "--crate-name",
        "fixture",
        "--crate-type=lib",
        "--edition=2021",
        "--target=x86_64-unknown-linux-gnu",
        "-Cpanic=unwind",
        "-Copt-level=0",
        "-Coverflow-checks=yes",
        "-Zmir-opt-level=0",
        "--emit=metadata",
        "--sysroot",
        "compiler:sysroot",
        "--error-format=json",
        "--cfg",
        "feature=\"fast\"",
        "--cfg",
        "firmware",
    ]
    .map(String::from)
    .to_vec();
    assert_eq!(args, expected);
}

#[test]
fn sealed_bodies_carry_the_identity_that_validation_checks() {
    let mut f = fixture();
    let hash = f.bundle.inputs.manifest_hash.clone();
    f.bundle.bodies[0].body_id = String::new();
    seal_bodies(&hash, &mut f.bundle.bodies).unwrap();
    let pair = serde_json::to_vec(&(&hash, "fixture::entry")).unwrap();
    assert_eq!(f.bundle.bodies[0].body_id, format!("mir:{}", sha(&pair)));
    assert_eq!(f.bundle.bodies[0].def_path, "fixture::entry");
    assert!(run(&f).is_ok());
    let twin = f.bundle.bodies[0].clone();
    f.bundle.bodies.push(twin);
    assert_eq!(seal_bodies(&hash, &mut f.bundle.bodies).unwrap_err(), "ambiguous compiler item path");
}

#[test]
fn source_context_compiler_and_cfg_mismatches_are_rejected() {
    let f = fixture();
    let mut changed = f.files.clone();
    changed[0].text.push(' ');
    assert!(validate_bundle(&f.bundle, &f.snapshot, &changed, &f.definitions).is_err());
    let mut changed = f.snapshot.clone();
    changed.context.target = "unknown".into();
    assert!(validate_bundle(&f.bundle, &changed, &f.files, &f.definitions).is_err());
    changed = f.snapshot.clone();
    changed.context.default_features = true;
    assert!(validate_bundle(&f.bundle, &changed, &f.files, &f.definitions).is_err());
    changed = f.snapshot.clone();
    changed.context.cfg.push(("test".into(), None));
    assert!(validate_bundle(&f.bundle, &changed, &f.files, &f.definitions).is_err());
    let mut compiler = f.clone();
    compiler.bundle.compiler.commit_hash = "unsupported".into();
    seal(&mut compiler);
    assert!(run(&compiler).is_err());
    compiler = f.clone();
    compiler.bundle.inputs.manifest_hash = "wrong".into();
    assert!(run(&compiler).is_err());
}

#[test]
fn malformed_cfg_local_scope_successor_and_span_references_are_rejected() {
    let f = fixture();
    let mut bad = f.clone();
    bad.bundle.inputs.rustc_args.push("--cfg".into());
    seal(&mut bad);
    assert!(run(&bad).is_err());
    bad = f.clone();
    bad.bundle.bodies[0].blocks[0].terminator.locals.defs.push(1);
    assert!(run(&bad).is_err());
    bad = f.clone();
    bad.bundle.bodies[0].source_scopes[0].parent = Some(0);
    assert!(run(&bad).is_err());
    bad = f.clone();
    bad.bundle.bodies[0].blocks[0].terminator.successors.push(CompilerSuccessor {
        target: 5,
        kind: CompilerEdgeKind::Normal,
        switch_value: None,
    });
    assert!(run(&bad).is_err());
    bad = f.clone();
    bad.bundle.bodies[0].span = CompilerSourceMapping::Exact { path: "lib.rs".into(), start_byte: 0, end_byte: 999 };
    assert!(run(&bad).is_err());
}

#[test]
fn compiler_object_corruption_and_invalid_cleanup_are_visible() {
    let mut f = fixture();
    f.bundle.bodies[0].blocks[0].terminator.unwind = Some(CompilerUnwind::Cleanup { target: 0 });
    assert!(run(&f).is_err());
}

fn successor(kind: CompilerEdgeKind) -> CompilerSuccessor {
    CompilerSuccessor { target: 0, kind, switch_value: None }
}

fn term(kind: &str) -> CompilerTerminator {
    let f = fixture();
    let mut term = f.bundle.bodies[0].blocks[0].terminator.clone();
    term.kind = kind.into();
    term
}

fn known_call(kind: &str) -> CompilerTerminator {
    let mut value = term(kind);
    value.call_target =
        Some(CompilerCallTarget::FunctionDefinition { def_path: "fixture::callee".into(), is_local: true });
    value.locals.unknown_effects = vec![CompilerUnknownEffect::Call];
    value
}

#[test]
fn supported_terminator_shapes_match_the_pinned_typed_adapter_contract() {
    let mut cases = ["return", "unwind_resume", "unreachable", "coroutine_drop"].map(term).to_vec();
    let mut value = term("goto");
    value.successors.push(successor(CompilerEdgeKind::Normal));
    cases.push(value);
    value = term("switch_int");
    value.successors = vec![
        CompilerSuccessor { target: 0, kind: CompilerEdgeKind::SwitchValue, switch_value: Some(u128::MAX.to_string()) },
        successor(CompilerEdgeKind::Otherwise),
    ];
    cases.push(value);
    value = term("unwind_terminate");
    value.unwind = Some(CompilerUnwind::Terminate { reason: "abi".into() });
    cases.push(value);
    value = term("drop");
    value.successors = vec![successor(CompilerEdgeKind::Normal), successor(CompilerEdgeKind::CoroutineDrop)];
    value.unwind = Some(CompilerUnwind::Continue);
    value.locals.unknown_effects = vec![CompilerUnknownEffect::Drop];
    cases.push(value);
    value = known_call("call");
    value.successors = vec![successor(CompilerEdgeKind::Normal)];
    value.normal_return_defs = vec![0];
    value.unwind = Some(CompilerUnwind::Continue);
    cases.push(value);
    value = known_call("call");
    value.unwind = Some(CompilerUnwind::Unreachable);
    cases.push(value);
    cases.push(known_call("tail_call"));
    value = term("assert");
    value.successors = vec![successor(CompilerEdgeKind::Normal)];
    value.unwind = Some(CompilerUnwind::Continue);
    value.assert_expected = Some(true);
    cases.push(value);
    value = term("yield");
    value.successors = vec![successor(CompilerEdgeKind::Resume), successor(CompilerEdgeKind::CoroutineDrop)];
    cases.push(value);
    value = term("false_edge");
    value.successors = vec![successor(CompilerEdgeKind::Normal), successor(CompilerEdgeKind::Imaginary)];
    cases.push(value);
    value = term("false_unwind");
    value.successors = vec![successor(CompilerEdgeKind::Normal)];
    value.unwind = Some(CompilerUnwind::Unreachable);
    cases.push(value);
    value = term("inline_asm");
    value.successors = vec![successor(CompilerEdgeKind::Normal), successor(CompilerEdgeKind::Normal)];
    value.unwind = Some(CompilerUnwind::Continue);
    value.locals.unknown_effects = vec![CompilerUnknownEffect::InlineAssembly];
    cases.push(value);
    for candidate in cases {
        let mut f = fixture();
        f.bundle.bodies[0].blocks[0].terminator = candidate;
        if let Err(error) = run(&f) {
            panic!("{} rejected: {error}", f.bundle.bodies[0].blocks[0].terminator.kind);
        }
    }
}

#[test]
fn cleanup_edges_are_bijective_with_unwind_metadata_and_cleanup_blocks() {
    let mut f = fixture();
    let mut cleanup = f.bundle.bodies[0].blocks[0].clone();
    cleanup.index = 1;
    cleanup.is_cleanup = true;
    cleanup.terminator = term("unwind_resume");
    f.bundle.bodies[0].blocks.push(cleanup);
    let mut call = known_call("call");
    call.unwind = Some(CompilerUnwind::Cleanup { target: 1 });
    call.successors = vec![CompilerSuccessor { target: 1, kind: CompilerEdgeKind::Unwind, switch_value: None }];
    f.bundle.bodies[0].blocks[0].terminator = call;
    run(&f).unwrap();
    let mut duplicate = f.clone();
    let edge = duplicate.bundle.bodies[0].blocks[0].terminator.successors[0].clone();
    duplicate.bundle.bodies[0].blocks[0].terminator.successors.push(edge);
    assert!(run(&duplicate).is_err());
    let mut absent = f.clone();
    absent.bundle.bodies[0].blocks[0].terminator.unwind = None;
    assert!(run(&absent).is_err());
    f.bundle.bodies[0].blocks[1].is_cleanup = false;
    assert!(run(&f).is_err());
}

#[test]
fn local_roles_ordering_and_statement_variants_are_validated() {
    let f = fixture();
    let mut bad = f.clone();
    bad.bundle.bodies[0].locals[0].role = "argument".into();
    assert!(run(&bad).is_err());
    bad = f.clone();
    bad.bundle.bodies[0].blocks[0].terminator.locals.uses = vec![0, 0];
    assert!(run(&bad).is_err());
    bad = f.clone();
    bad.bundle.bodies[0].kind = "unknown".into();
    assert!(run(&bad).is_err());
    bad = f;
    let span = bad.bundle.bodies[0].span.clone();
    bad.bundle.bodies[0].blocks[0].statements.push(CompilerStatement {
        index: 0,
        kind: "invented".into(),
        source_scope: 0,
        span,
        locals: Default::default(),
    });
    assert!(run(&bad).is_err());
}

#[test]
fn canonical_invocation_rejects_resealed_flag_and_artifact_contradictions() {
    let f = fixture();
    for (index, replacement) in [
        (0, "rustc"),
        (1, "./other.rs"),
        (3, "other_crate"),
        (4, "--crate-type=bin"),
        (5, "--edition=2015"),
        (6, "--target=other"),
        (7, "-Cpanic=abort"),
        (8, "-Copt-level=3"),
        (9, "-Coverflow-checks=no"),
        (10, "-Zmir-opt-level=2"),
        (11, "--emit=link"),
        (13, "/private/sysroot"),
        (14, "--test"),
    ] {
        let mut changed = f.clone();
        changed.bundle.inputs.rustc_args[index] = replacement.into();
        seal(&mut changed);
        assert!(run(&changed).is_err(), "accepted contradictory argument {replacement}");
    }
    for extra in ["--test", "--extern=untrusted", "--cfg=test", "--target=other"] {
        let mut changed = f.clone();
        changed.bundle.inputs.rustc_args.push(extra.into());
        seal(&mut changed);
        assert!(run(&changed).is_err());
    }
    let mut changed = f.clone();
    changed.bundle.inputs.rustc_args.clear();
    seal(&mut changed);
    assert!(run(&changed).is_err());
    changed = f.clone();
    changed.bundle.inputs.compiled_artifact =
        Some(CompilerArtifact { kind: "executable".into(), sha256: "a".repeat(64) });
    seal(&mut changed);
    assert!(run(&changed).is_err());
    changed = f.clone();
    changed.bundle.compiler.adapter_version = "unknown".into();
    seal(&mut changed);
    assert!(run(&changed).is_err());
}

#[test]
fn invocation_contradictions_name_the_pinned_contract() {
    let mut f = fixture();
    f.bundle.inputs.rustc_args[13] = "/private/sysroot".into();
    seal(&mut f);
    assert_eq!(refused(&f), "compiler invocation differs from the pinned adapter contract");
    let mut f = fixture();
    f.bundle.bodies[0].blocks[0].terminator.locals.uses = vec![0, 0];
    assert_eq!(refused(&f), "compiler local references must be sorted and distinct");
    let mut f = fixture();
    f.bundle.bodies[0].kind = "unknown".into();
    assert_eq!(refused(&f), "unsupported compiler body kind");
    let mut f = fixture();
    f.bundle.bodies[0].locals[0].role = "argument".into();
    assert_eq!(refused(&f), "invalid compiler local role");
}

#[test]
fn malformed_kind_edge_metadata_and_conservative_effects_are_rejected() {
    let mut cases = vec![term("unsupported"), term("goto"), term("assert"), term("call"), term("switch_int")];
    let mut value = term("return");
    value.successors.push(successor(CompilerEdgeKind::Normal));
    cases.push(value);
    value = term("return");
    value.assert_expected = Some(false);
    cases.push(value);
    value = term("return");
    value.normal_return_defs = vec![0];
    cases.push(value);
    value = known_call("return");
    cases.push(value);
    value = term("goto");
    value.successors =
        vec![CompilerSuccessor { target: 0, kind: CompilerEdgeKind::Normal, switch_value: Some("1".into()) }];
    cases.push(value);
    value = term("switch_int");
    value.successors = vec![successor(CompilerEdgeKind::SwitchValue), successor(CompilerEdgeKind::Otherwise)];
    cases.push(value);
    value = term("switch_int");
    value.successors = vec![
        CompilerSuccessor { target: 0, kind: CompilerEdgeKind::SwitchValue, switch_value: Some("01".into()) },
        successor(CompilerEdgeKind::Otherwise),
    ];
    cases.push(value);
    value = term("switch_int");
    value.successors = vec![
        CompilerSuccessor { target: 0, kind: CompilerEdgeKind::SwitchValue, switch_value: Some("1".into()) },
        CompilerSuccessor { target: 0, kind: CompilerEdgeKind::SwitchValue, switch_value: Some("1".into()) },
        successor(CompilerEdgeKind::Otherwise),
    ];
    cases.push(value);
    value = known_call("call");
    value.unwind = Some(CompilerUnwind::Continue);
    value.normal_return_defs = vec![0];
    cases.push(value);
    value = known_call("call");
    value.unwind = Some(CompilerUnwind::Continue);
    value.locals.unknown_effects.clear();
    cases.push(value);
    value = known_call("call");
    value.unwind = Some(CompilerUnwind::Continue);
    value.call_target = Some(CompilerCallTarget::Indirect { reason: "pointer".into() });
    cases.push(value);
    value = term("goto");
    value.successors = vec![successor(CompilerEdgeKind::Unwind)];
    cases.push(value);
    value = term("unwind_terminate");
    value.unwind = Some(CompilerUnwind::Terminate { reason: "unknown".into() });
    cases.push(value);
    for candidate in cases {
        let mut f = fixture();
        f.bundle.bodies[0].blocks[0].terminator = candidate;
        assert!(run(&f).is_err(), "accepted {:?}", f.bundle.bodies[0].blocks[0].terminator);
    }
}
