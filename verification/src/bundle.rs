//! Checks an imported compiler bundle against the selected snapshot before any of its
//! bodies are read: producer and phase, build inputs, captured source bytes, body
//! identities, and the internal consistency of every body.
use crate::compiler::{
    CompilerBody, CompilerBlock, CompilerCallTarget, CompilerUnknownEffect, CompilerEdgeKind, CompilerIdentity, CompilerLocal,
    CompilerLocalEffects, CompilerSourceMapping, CompilerSourceScope, CompilerStatement,
    CompilerSuccessor, CompilerTerminator, CompilerUnwind, terminator_problem, validate_graph_term,
};
use crate::envelope::AnalysisError;
use crate::capture::CompilerSourceFile;
use crate::decimal::{all_digits, digits_value, parse_u128, unsigned_digits};
use crate::graph::{json_bytes, json_of_texts, sha256_hex, sha256_text};
use crate::model::{texts, CfgStatus, Coverage, ReasonCount, Status, UnknownReason};
use crate::text::{bytes_lt, bytes_of, lex_lt, text_bytes, text_is};
use vstd::prelude::*;
use vstd::string::{StrSliceExecFns, StringExecFns, StringSliceAdditionalSpecFns};
use vstd::utf8::{encode_utf8, is_char_boundary};

verus! {

// ---------------------------------------------------------------------------
// Inputs
// ---------------------------------------------------------------------------

/// An artifact that a compiler run produced.
#[derive(Debug, Clone)]
pub struct CompilerArtifact {
    pub kind: String,
    pub sha256: String,
}

/// How the compiler was invoked.
#[derive(Debug, Clone)]
pub struct CompilerInputs {
    pub manifest_hash: String,
    pub files: Vec<CompilerSourceFile>,
    pub crate_name: String,
    pub crate_root: String,
    pub edition: String,
    pub target: String,
    pub panic_strategy: String,
    pub mir_opt_level: u32,
    pub rustc_args: Vec<String>,
    pub environment_policy: String,
    pub trust: String,
    pub compiled_artifact: Option<CompilerArtifact>,
}

/// The records of one compiler run over one crate.
#[derive(Debug, Clone)]
pub struct CompilerBundle {
    pub schema_version: u32,
    pub compiler: CompilerIdentity,
    pub inputs: CompilerInputs,
    pub phase: String,
    pub bodies: Vec<CompilerBody>,
    pub limitations: Vec<String>,
}

/// One crate of a build selection.
#[derive(Debug, Clone)]
pub struct CrateInput {
    pub name: String,
    pub root_file: String,
    pub edition: String,
}

/// The build selection of a snapshot: target, features and `cfg` values (keys ascending),
/// and its crates.
#[derive(Debug, Clone)]
pub struct BuildSelection {
    pub id: String,
    pub target: String,
    pub features: Vec<String>,
    pub default_features: bool,
    pub cfg: Vec<(String, Option<String>)>,
    pub crates: Vec<CrateInput>,
}

/// A captured snapshot and its build selection.
#[derive(Debug, Clone)]
pub struct Snapshot {
    pub id: String,
    pub context: BuildSelection,
}

/// One captured source file of the snapshot.
#[derive(Debug, Clone)]
pub struct CapturedSource {
    pub id: String,
    pub path: String,
    pub text: String,
}

/// One definition of the snapshot that a compiled body may map to.
#[derive(Debug, Clone)]
pub struct SourceDefinition {
    pub id: String,
    pub kind: String,
    pub file_id: String,
    pub cfg_status: CfgStatus,
    pub start: u32,
    pub end: u32,
}

/// The definition a compiled body maps to, or why none is named.
#[derive(Debug, Clone)]
pub enum CompilerDefinitionMapping {
    Matched { definition_id: String },
    Unmapped { reason: String },
}

/// The mapping of one compiled body.
#[derive(Debug, Clone)]
pub struct CompilerBodyMapping {
    pub body_id: String,
    pub mapping: CompilerDefinitionMapping,
}

/// An accepted bundle with the mapping of each of its bodies.
#[derive(Debug, Clone)]
pub struct CompilerImport {
    pub snapshot_id: String,
    pub context_id: String,
    pub bundle: CompilerBundle,
    pub mappings: Vec<CompilerBodyMapping>,
    pub coverage: Coverage,
}

// ---------------------------------------------------------------------------
// Body checks
// ---------------------------------------------------------------------------

/// The most statements (each terminator counting as one) that one bundle may hold.
pub const MAX_STATEMENTS: usize = 200_000;

/// The captured file (by index) that the first manifest entry at `k` or later with this
/// path maps to.
pub open spec fn source_from(sources: Seq<(String, usize)>, path: Seq<char>, k: int) -> Option<usize>
    decreases sources.len() - k,
{
    if k < 0 || k >= sources.len() {
        None
    } else if sources[k].0@ == path {
        Some(sources[k].1)
    } else {
        source_from(sources, path, k + 1)
    }
}

/// Whether every manifest entry maps to a captured file.
pub open spec fn sources_wf(sources: Seq<(String, usize)>, files: Seq<CapturedSource>) -> bool {
    forall|k: int| 0 <= k < sources.len() ==> (#[trigger] sources[k]).1 < files.len()
}

/// The problem with a source mapping: an uncaptured file, or a byte range that is
/// reversed, out of bounds or not on character boundaries.
pub open spec fn span_problem(
    m: CompilerSourceMapping,
    sources: Seq<(String, usize)>,
    files: Seq<CapturedSource>,
) -> Option<Seq<char>> {
    match m {
        CompilerSourceMapping::Exact { path, start_byte, end_byte } => match source_from(
            sources,
            path@,
            0,
        ) {
            None => Some("compiler span refers to an uncaptured file"@),
            Some(i) => {
                let bytes = text_bytes(files[i as int].text);
                if start_byte <= end_byte && end_byte <= bytes.len() && is_char_boundary(
                    bytes,
                    start_byte as int,
                ) && is_char_boundary(bytes, end_byte as int) {
                    None
                } else {
                    Some("invalid compiler UTF-8 byte span"@)
                }
            },
        },
        CompilerSourceMapping::Unavailable { .. } => None,
    }
}

/// Whether every index of a list names one of `locals` locals.
pub open spec fn all_below(list: Seq<u32>, locals: int) -> bool {
    forall|k: int| 0 <= k < list.len() ==> (#[trigger] list[k]) < locals
}

/// Whether every local that the effects name exists.
pub open spec fn effects_ok(e: CompilerLocalEffects, locals: int) -> bool {
    &&& all_below(e.defs@, locals)
    &&& all_below(e.uses@, locals)
    &&& all_below(e.moves@, locals)
    &&& all_below(e.storage_live@, locals)
    &&& all_below(e.storage_dead@, locals)
}

/// Whether each index of a list is below the next: sorted, without repeats.
pub open spec fn ascending(list: Seq<u32>) -> bool {
    forall|i: int, j: int| 0 <= i && j == i + 1 && j < list.len() ==> #[trigger] list[i] < #[trigger] list[j]
}

/// The problem with a record's effects: a missing local, or a list that is not sorted
/// and distinct.
pub open spec fn effects_problem(e: CompilerLocalEffects, locals: int) -> Option<Seq<char>> {
    if !effects_ok(e, locals) {
        Some("compiler local reference out of range"@)
    } else if !(ascending(e.defs@) && ascending(e.uses@) && ascending(e.moves@) && ascending(e.storage_live@)
        && ascending(e.storage_dead@)) {
        Some("compiler local references must be sorted and distinct"@)
    } else {
        None
    }
}

/// The role the producer gives local `i` of a body with `arguments` arguments.
pub open spec fn local_role(i: int, arguments: int) -> Seq<char> {
    if i == 0 {
        "return"@
    } else if i <= arguments {
        "argument"@
    } else {
        "temporary"@
    }
}

/// The body kinds the producer emits.
pub open spec fn body_kind_known(kind: Seq<char>) -> bool {
    kind == "function"@ || kind == "associated_function"@ || kind == "closure_or_coroutine"@ || kind
        == "synthetic_coroutine"@
}

/// The statement kinds the producer emits.
pub open spec fn statement_kind_known(kind: Seq<char>) -> bool {
    ||| kind == "assign"@
    ||| kind == "fake_read"@
    ||| kind == "set_discriminant"@
    ||| kind == "storage_live"@
    ||| kind == "storage_dead"@
    ||| kind == "retag"@
    ||| kind == "place_mention"@
    ||| kind == "ascribe_user_type"@
    ||| kind == "coverage"@
    ||| kind == "intrinsic"@
    ||| kind == "const_eval_counter"@
    ||| kind == "nop"@
}

/// The first problem among scopes `i..`.
pub open spec fn scopes_problem_from(
    s: Seq<CompilerSourceScope>,
    i: int,
    sources: Seq<(String, usize)>,
    files: Seq<CapturedSource>,
) -> Option<Seq<char>>
    decreases s.len() - i,
{
    if i < 0 || i >= s.len() {
        None
    } else if !(s[i].index == i && (s[i].parent matches Some(p) ==> p < i)) {
        Some("invalid compiler scope tree"@)
    } else if span_problem(s[i].span, sources, files) is Some {
        span_problem(s[i].span, sources, files)
    } else {
        scopes_problem_from(s, i + 1, sources, files)
    }
}

/// The first problem among locals `i..` of a body with `scopes` scopes and `arguments`
/// arguments.
pub open spec fn locals_problem_from(
    s: Seq<CompilerLocal>,
    i: int,
    scopes: int,
    arguments: int,
    sources: Seq<(String, usize)>,
    files: Seq<CapturedSource>,
) -> Option<Seq<char>>
    decreases s.len() - i,
{
    if i < 0 || i >= s.len() {
        None
    } else if !(s[i].index == i && s[i].source_scope < scopes) {
        Some("invalid compiler local/scope identity"@)
    } else if s[i].role@ != local_role(i, arguments) {
        Some("invalid compiler local role"@)
    } else if span_problem(s[i].span, sources, files) is Some {
        span_problem(s[i].span, sources, files)
    } else {
        locals_problem_from(s, i + 1, scopes, arguments, sources, files)
    }
}

/// The first problem among statements `i..` of a block.
pub open spec fn statements_problem_from(
    s: Seq<CompilerStatement>,
    i: int,
    scopes: int,
    locals: int,
    sources: Seq<(String, usize)>,
    files: Seq<CapturedSource>,
) -> Option<Seq<char>>
    decreases s.len() - i,
{
    if i < 0 || i >= s.len() {
        None
    } else if !(s[i].index == i && s[i].source_scope < scopes) {
        Some("invalid statement/scope identity"@)
    } else if !statement_kind_known(s[i].kind@) {
        Some("unsupported compiler statement kind"@)
    } else if span_problem(s[i].span, sources, files) is Some {
        span_problem(s[i].span, sources, files)
    } else if effects_problem(s[i].locals, locals) is Some {
        effects_problem(s[i].locals, locals)
    } else {
        statements_problem_from(s, i + 1, scopes, locals, sources, files)
    }
}

/// Whether a switch value is a nonempty run of ASCII digits denoting a `u128`.
pub open spec fn switch_value_ok(v: String) -> bool {
    all_digits(text_bytes(v)) && digits_value(text_bytes(v)) <= u128::MAX
}

/// The first problem among successor edges `i..` of a body with `blocks` blocks.
pub open spec fn successors_problem_from(s: Seq<CompilerSuccessor>, i: int, blocks: int) -> Option<
    Seq<char>,
>
    decreases s.len() - i,
{
    if i < 0 || i >= s.len() {
        None
    } else if s[i].target >= blocks {
        Some("compiler successor is outside its body"@)
    } else if s[i].switch_value matches Some(v) && !switch_value_ok(v) {
        Some("invalid switch value"@)
    } else {
        successors_problem_from(s, i + 1, blocks)
    }
}

/// Whether the terminator records an unknown effect of this kind.
pub open spec fn has_effect(t: CompilerTerminator, e: CompilerUnknownEffect) -> bool {
    exists|k: int| 0 <= k < t.locals.unknown_effects@.len() && #[trigger] t.locals.unknown_effects@[k] == e
}

/// Whether the terminator has a normal successor edge.
pub open spec fn returns_normally(t: CompilerTerminator) -> bool {
    exists|k: int| 0 <= k < t.successors@.len() && (#[trigger] t.successors@[k]).kind == CompilerEdgeKind::Normal
}

/// Whether an unwind termination reason is one the producer names.
pub open spec fn terminate_reason_known(reason: Seq<char>) -> bool {
    reason == "abi"@ || reason == "panic_during_cleanup"@
}

/// The problem with a terminator's call, assertion and effect metadata: call targets on
/// calls only; calls, drops and inline assembly recording their unknown effects (an
/// indirect call also as such); assertion expectations on assertions only; call
/// destinations only on calls that return normally, sorted and distinct; and known
/// termination reasons.
pub open spec fn metadata_problem(t: CompilerTerminator) -> Option<Seq<char>> {
    let calls = t.kind@ == "call"@ || t.kind@ == "tail_call"@;
    if (t.call_target is Some) != calls {
        Some("call target metadata does not match the terminator kind"@)
    } else if calls && !(has_effect(t, CompilerUnknownEffect::Call) && (t.call_target matches Some(
        CompilerCallTarget::Indirect { .. },
    ) ==> has_effect(t, CompilerUnknownEffect::IndirectCall))) || (t.kind@ == "drop"@ && !has_effect(
        t,
        CompilerUnknownEffect::Drop,
    )) || (t.kind@ == "inline_asm"@ && !has_effect(t, CompilerUnknownEffect::InlineAssembly)) {
        Some("terminator unknown effects are not conservative"@)
    } else if (t.assert_expected is Some) != (t.kind@ == "assert"@) {
        Some("assert metadata does not match the terminator kind"@)
    } else if t.normal_return_defs@.len() > 0 && !(t.kind@ == "call"@ && returns_normally(t)) {
        Some("call destinations require a call that returns normally"@)
    } else if !ascending(t.normal_return_defs@) {
        Some("call destinations must be sorted and distinct"@)
    } else if t.unwind matches Some(CompilerUnwind::Terminate { reason }) && !terminate_reason_known(reason@) {
        Some("unknown unwind termination reason"@)
    } else {
        None
    }
}

/// Whether a cleanup unwind names a cleanup block that an unwind edge reaches.
pub open spec fn cleanup_ok(t: CompilerTerminator, blocks: Seq<CompilerBlock>) -> bool {
    t.unwind matches Some(CompilerUnwind::Cleanup { target }) ==> {
        &&& target < blocks.len()
        &&& blocks[target as int].is_cleanup
        &&& exists|j: int|
            0 <= j < t.successors@.len() && (#[trigger] t.successors@[j]).target == target
                && t.successors@[j].kind == CompilerEdgeKind::Unwind
    }
}

/// The first problem with the terminator of a block.
pub open spec fn terminator_fault(
    t: CompilerTerminator,
    body: CompilerBody,
    sources: Seq<(String, usize)>,
    files: Seq<CapturedSource>,
) -> Option<Seq<char>> {
    let locals = body.locals@.len() as int;
    if t.source_scope >= body.source_scopes@.len() {
        Some("invalid terminator scope"@)
    } else if span_problem(t.span, sources, files) is Some {
        span_problem(t.span, sources, files)
    } else if effects_problem(t.locals, locals) is Some {
        effects_problem(t.locals, locals)
    } else if !all_below(t.normal_return_defs@, locals) {
        Some("invalid call destination"@)
    } else if successors_problem_from(t.successors@, 0, body.blocks@.len() as int) is Some {
        successors_problem_from(t.successors@, 0, body.blocks@.len() as int)
    } else if !cleanup_ok(t, body.blocks@) {
        Some("invalid cleanup edge"@)
    } else if terminator_problem(t) is Some {
        terminator_problem(t)
    } else {
        metadata_problem(t)
    }
}

/// The statement count after adding a block of `n` statements and its terminator,
/// saturating at `usize::MAX`.
pub open spec fn counted(count: int, n: int) -> int {
    if count + n + 1 > usize::MAX {
        usize::MAX as int
    } else {
        count + n + 1
    }
}

/// The first problem among blocks `i..`, with `count` statements counted before them, and
/// the count after them when there is none.
pub open spec fn blocks_problem_from(
    body: CompilerBody,
    i: int,
    count: int,
    sources: Seq<(String, usize)>,
    files: Seq<CapturedSource>,
) -> (Option<Seq<char>>, int)
    decreases body.blocks@.len() - i,
{
    let b = body.blocks@;
    if i < 0 || i >= b.len() {
        (None, count)
    } else if b[i].index != i {
        (Some("invalid compiler block identity"@), count)
    } else if counted(count, b[i].statements@.len() as int) > MAX_STATEMENTS {
        (Some("compiler statement budget exceeded"@), count)
    } else if statements_problem_from(
        b[i].statements@,
        0,
        body.source_scopes@.len() as int,
        body.locals@.len() as int,
        sources,
        files,
    ) is Some {
        (
            statements_problem_from(
                b[i].statements@,
                0,
                body.source_scopes@.len() as int,
                body.locals@.len() as int,
                sources,
                files,
            ),
            count,
        )
    } else if terminator_fault(b[i].terminator, body, sources, files) is Some {
        (terminator_fault(b[i].terminator, body, sources, files), count)
    } else {
        blocks_problem_from(body, i + 1, counted(count, b[i].statements@.len() as int), sources, files)
    }
}

/// The first problem with a body, given `count` statements counted in earlier bodies, and
/// the count after it when there is none.
pub open spec fn body_problem(
    body: CompilerBody,
    count: int,
    sources: Seq<(String, usize)>,
    files: Seq<CapturedSource>,
) -> (Option<Seq<char>>, int) {
    let scopes = body.source_scopes@.len();
    let locals = body.locals@.len();
    if locals == 0 || locals > 10_000 || body.argument_count >= locals {
        (Some("invalid compiler locals"@), count)
    } else if !body_kind_known(body.kind@) {
        (Some("unsupported compiler body kind"@), count)
    } else if body.blocks@.len() == 0 || body.blocks@.len() > 10_000 || scopes == 0 || scopes
        > 10_000 {
        (Some("compiler body exceeds block/scope budget"@), count)
    } else if span_problem(body.span, sources, files) is Some {
        (span_problem(body.span, sources, files), count)
    } else if scopes_problem_from(body.source_scopes@, 0, sources, files) is Some {
        (scopes_problem_from(body.source_scopes@, 0, sources, files), count)
    } else if locals_problem_from(body.locals@, 0, scopes as int, body.argument_count as int, sources, files) is Some {
        (locals_problem_from(body.locals@, 0, scopes as int, body.argument_count as int, sources, files), count)
    } else {
        blocks_problem_from(body, 0, count, sources, files)
    }
}

/// An error carrying `message`.
fn failure(message: &str) -> (r: Result<(), String>)
    ensures
        r matches Err(m) && m@ == message@,
{
    Err(message.to_string())
}

/// The captured file that the first manifest entry with this path maps to.
fn find_source(sources: &Vec<(String, usize)>, path: &String) -> (r: Option<usize>)
    ensures
        r == source_from(sources@, path@, 0),
{
    let mut k: usize = 0;
    while k < sources.len()
        invariant
            k <= sources@.len(),
            source_from(sources@, path@, 0) == source_from(sources@, path@, k as int),
        decreases sources.len() - k,
    {
        if sources[k].0 == *path {
            return Some(sources[k].1);
        }
        k += 1;
    }
    None
}

/// Checks one source mapping.
fn check_span(m: &CompilerSourceMapping, sources: &Vec<(String, usize)>, files: &Vec<CapturedSource>) -> (r:
    Result<(), String>)
    requires
        sources_wf(sources@, files@),
    ensures
        match r {
            Ok(()) => span_problem(*m, sources@, files@) is None,
            Err(e) => span_problem(*m, sources@, files@) == Some(e@),
        },
{
    match m {
        CompilerSourceMapping::Exact { path, start_byte, end_byte } => match find_source(
            sources,
            path,
        ) {
            None => failure("compiler span refers to an uncaptured file"),
            Some(i) => {
                proof {
                    lemma_source_from_in_range(sources@, files@, path@, 0);
                    assert(*m == CompilerSourceMapping::Exact { path: *path, start_byte: *start_byte, end_byte: *end_byte });
                }
                let text = files[i].text.as_str();
                proof {
                    assert(text.spec_bytes() == text_bytes(files@[i as int].text));
                }
                let start = *start_byte as usize;
                let end = *end_byte as usize;
                let at_start = text.is_char_boundary(start);
                let at_end = text.is_char_boundary(end);
                let length = bytes_of(&files[i].text).len();
                if start <= end && end <= length && at_start && at_end {
                    Ok(())
                } else {
                    failure("invalid compiler UTF-8 byte span")
                }
            },
        },
        CompilerSourceMapping::Unavailable { .. } => Ok(()),
    }
}

proof fn lemma_source_from_in_range(
    sources: Seq<(String, usize)>,
    files: Seq<CapturedSource>,
    path: Seq<char>,
    k: int,
)
    requires
        sources_wf(sources, files),
    ensures
        source_from(sources, path, k) matches Some(i) ==> i < files.len(),
    decreases sources.len() - k,
{
    if 0 <= k < sources.len() && sources[k].0@ != path {
        lemma_source_from_in_range(sources, files, path, k + 1);
    }
}

/// Whether every index of a list is below `locals`.
fn indices_below(list: &Vec<u32>, locals: usize) -> (r: bool)
    ensures
        r == all_below(list@, locals as int),
{
    let mut k: usize = 0;
    while k < list.len()
        invariant
            k <= list@.len(),
            forall|j: int| 0 <= j < k ==> (#[trigger] list@[j]) < locals,
        decreases list.len() - k,
    {
        if list[k] as usize >= locals {
            return false;
        }
        k += 1;
    }
    true
}

/// Whether each index of a list is below the next.
fn is_ascending(list: &Vec<u32>) -> (r: bool)
    ensures
        r == ascending(list@),
{
    let mut k: usize = 1;
    while k < list.len()
        invariant
            1 <= k,
            forall|i: int, j: int| 0 <= i && j == i + 1 && j < k && j < list@.len() ==> #[trigger] list@[i] < #[trigger] list@[j],
        decreases list.len() - k,
    {
        if list[k - 1] >= list[k] {
            return false;
        }
        k += 1;
    }
    true
}

/// Checks that every local the effects name exists, and that each list is sorted and
/// distinct.
fn check_effects(e: &CompilerLocalEffects, locals: usize) -> (r: Result<(), String>)
    ensures
        match r {
            Ok(()) => effects_problem(*e, locals as int) is None,
            Err(m) => effects_problem(*e, locals as int) == Some(m@),
        },
{
    if !(indices_below(&e.defs, locals) && indices_below(&e.uses, locals) && indices_below(
        &e.moves,
        locals,
    ) && indices_below(&e.storage_live, locals) && indices_below(&e.storage_dead, locals)) {
        return failure("compiler local reference out of range");
    }
    if is_ascending(&e.defs) && is_ascending(&e.uses) && is_ascending(&e.moves) && is_ascending(&e.storage_live)
        && is_ascending(&e.storage_dead) {
        Ok(())
    } else {
        failure("compiler local references must be sorted and distinct")
    }
}

/// Whether the producer emits bodies of this kind.
fn is_body_kind(kind: &String) -> (r: bool)
    ensures
        r == body_kind_known(kind@),
{
    let k = kind.as_str();
    text_is(k, "function") || text_is(k, "associated_function") || text_is(k, "closure_or_coroutine")
        || text_is(k, "synthetic_coroutine")
}

/// Whether the producer emits statements of this kind.
fn is_statement_kind(kind: &String) -> (r: bool)
    ensures
        r == statement_kind_known(kind@),
{
    let k = kind.as_str();
    text_is(k, "assign") || text_is(k, "fake_read") || text_is(k, "set_discriminant") || text_is(k, "storage_live")
        || text_is(k, "storage_dead") || text_is(k, "retag") || text_is(k, "place_mention") || text_is(
        k,
        "ascribe_user_type",
    ) || text_is(k, "coverage") || text_is(k, "intrinsic") || text_is(k, "const_eval_counter") || text_is(k, "nop")
}

/// Whether a local has the role the producer gives local `index`.
fn has_role(local: &CompilerLocal, index: usize, arguments: u32) -> (r: bool)
    ensures
        r == (local.role@ == local_role(index as int, arguments as int)),
{
    let role = local.role.as_str();
    if index == 0 {
        text_is(role, "return")
    } else if index <= arguments as usize {
        text_is(role, "argument")
    } else {
        text_is(role, "temporary")
    }
}

/// Whether a switch value is a nonempty run of ASCII digits denoting a `u128`.
fn is_switch_value(v: &String) -> (r: bool)
    ensures
        r == switch_value_ok(*v),
{
    let text = v.as_str();
    proof {
        assert(text.spec_bytes() == text_bytes(*v));
    }
    let bytes = bytes_of(v);
    if bytes.len() == 0 || bytes[0] == 43 {
        return false;
    }
    proof {
        assert(unsigned_digits(text_bytes(*v)) == text_bytes(*v));
    }
    parse_u128(text).is_some()
}

/// Checks the successor edges of a terminator in a body with `blocks` blocks.
fn check_successors(s: &Vec<CompilerSuccessor>, blocks: usize) -> (r: Result<(), String>)
    ensures
        match r {
            Ok(()) => successors_problem_from(s@, 0, blocks as int) is None,
            Err(e) => successors_problem_from(s@, 0, blocks as int) == Some(e@),
        },
{
    let mut k: usize = 0;
    while k < s.len()
        invariant
            k <= s@.len(),
            successors_problem_from(s@, 0, blocks as int) == successors_problem_from(s@, k as int, blocks as int),
        decreases s.len() - k,
    {
        if s[k].target as usize >= blocks {
            return failure("compiler successor is outside its body");
        }
        match &s[k].switch_value {
            Some(v) => {
                if !is_switch_value(v) {
                    return failure("invalid switch value");
                }
            },
            None => {},
        }
        k += 1;
    }
    Ok(())
}

/// Whether a cleanup unwind names a cleanup block that an unwind edge reaches.
#[verifier::loop_isolation(false)]
fn check_cleanup(t: &CompilerTerminator, blocks: &Vec<CompilerBlock>) -> (r: bool)
    ensures
        r == cleanup_ok(*t, blocks@),
{
    match &t.unwind {
        Some(CompilerUnwind::Cleanup { target }) => {
            let target = *target;
            if target as usize >= blocks.len() || !blocks[target as usize].is_cleanup {
                return false;
            }
            let mut k: usize = 0;
            while k < t.successors.len()
                invariant
                    k <= t.successors@.len(),
                    forall|j: int| 0 <= j < k ==> !((#[trigger] t.successors@[j]).target == target
                        && t.successors@[j].kind == CompilerEdgeKind::Unwind),
                decreases t.successors.len() - k,
            {
                if t.successors[k].target == target && t.successors[k].kind == CompilerEdgeKind::Unwind {
                    assert(t.successors@[k as int].target == target);
                    return true;
                }
                k += 1;
            }
            false
        },
        _ => true,
    }
}

/// Checks the terminator of a block of `body`.
fn check_terminator(
    t: &CompilerTerminator,
    body: &CompilerBody,
    sources: &Vec<(String, usize)>,
    files: &Vec<CapturedSource>,
) -> (r: Result<(), String>)
    requires
        sources_wf(sources@, files@),
    ensures
        match r {
            Ok(()) => terminator_fault(*t, *body, sources@, files@) is None,
            Err(e) => terminator_fault(*t, *body, sources@, files@) == Some(e@),
        },
{
    let locals = body.locals.len();
    if t.source_scope as usize >= body.source_scopes.len() {
        return failure("invalid terminator scope");
    }
    check_span(&t.span, sources, files)?;
    check_effects(&t.locals, locals)?;
    if !indices_below(&t.normal_return_defs, locals) {
        return failure("invalid call destination");
    }
    check_successors(&t.successors, body.blocks.len())?;
    if !check_cleanup(t, &body.blocks) {
        return failure("invalid cleanup edge");
    }
    match validate_graph_term(t) {
        Ok(()) => {},
        Err(AnalysisError::InvalidInput(message)) => {
            return Err(message);
        },
        Err(_) => {
            return Err(String::new());
        },
    }
    check_metadata(t)
}

/// Whether the terminator records an unknown effect of this kind.
fn records_effect(t: &CompilerTerminator, e: CompilerUnknownEffect) -> (r: bool)
    ensures
        r == has_effect(*t, e),
{
    let effects = &t.locals.unknown_effects;
    let mut k: usize = 0;
    while k < effects.len()
        invariant
            k <= effects@.len(),
            *effects == t.locals.unknown_effects,
            forall|j: int| 0 <= j < k ==> effects@[j] != e,
        decreases effects.len() - k,
    {
        if effects[k] == e {
            assert(t.locals.unknown_effects@[k as int] == e);
            return true;
        }
        k += 1;
    }
    false
}

/// Whether the terminator has a normal successor edge.
fn has_normal_edge(t: &CompilerTerminator) -> (r: bool)
    ensures
        r == returns_normally(*t),
{
    let mut k: usize = 0;
    while k < t.successors.len()
        invariant
            k <= t.successors@.len(),
            forall|j: int| 0 <= j < k ==> (#[trigger] t.successors@[j]).kind != CompilerEdgeKind::Normal,
        decreases t.successors.len() - k,
    {
        if t.successors[k].kind == CompilerEdgeKind::Normal {
            assert(t.successors@[k as int].kind == CompilerEdgeKind::Normal);
            return true;
        }
        k += 1;
    }
    false
}

/// Checks a terminator's call, assertion and effect metadata.
fn check_metadata(t: &CompilerTerminator) -> (r: Result<(), String>)
    ensures
        match r {
            Ok(()) => metadata_problem(*t) is None,
            Err(e) => metadata_problem(*t) == Some(e@),
        },
{
    let kind = t.kind.as_str();
    let calls = text_is(kind, "call") || text_is(kind, "tail_call");
    if t.call_target.is_some() != calls {
        return failure("call target metadata does not match the terminator kind");
    }
    let indirect = match &t.call_target {
        Some(CompilerCallTarget::Indirect { .. }) => true,
        _ => false,
    };
    let call_effects = records_effect(t, CompilerUnknownEffect::Call) && (!indirect || records_effect(
        t,
        CompilerUnknownEffect::IndirectCall,
    ));
    if (calls && !call_effects) || (text_is(kind, "drop") && !records_effect(t, CompilerUnknownEffect::Drop)) || (
    text_is(kind, "inline_asm") && !records_effect(t, CompilerUnknownEffect::InlineAssembly)) {
        return failure("terminator unknown effects are not conservative");
    }
    if t.assert_expected.is_some() != text_is(kind, "assert") {
        return failure("assert metadata does not match the terminator kind");
    }
    if t.normal_return_defs.len() > 0 && !(text_is(kind, "call") && has_normal_edge(t)) {
        return failure("call destinations require a call that returns normally");
    }
    if !is_ascending(&t.normal_return_defs) {
        return failure("call destinations must be sorted and distinct");
    }
    match &t.unwind {
        Some(CompilerUnwind::Terminate { reason }) => {
            let r = reason.as_str();
            if !(text_is(r, "abi") || text_is(r, "panic_during_cleanup")) {
                return failure("unknown unwind termination reason");
            }
        },
        _ => {},
    }
    Ok(())
}

/// Checks the statements of a block of `body`.
fn check_statements(
    s: &Vec<CompilerStatement>,
    body: &CompilerBody,
    sources: &Vec<(String, usize)>,
    files: &Vec<CapturedSource>,
) -> (r: Result<(), String>)
    requires
        sources_wf(sources@, files@),
    ensures
        match r {
            Ok(()) => statements_problem_from(s@, 0, body.source_scopes@.len() as int, body.locals@.len() as int, sources@, files@) is None,
            Err(e) => statements_problem_from(s@, 0, body.source_scopes@.len() as int, body.locals@.len() as int, sources@, files@) == Some(e@),
        },
{
    let scopes = body.source_scopes.len();
    let locals = body.locals.len();
    let mut k: usize = 0;
    while k < s.len()
        invariant
            k <= s@.len(),
            sources_wf(sources@, files@),
            scopes == body.source_scopes@.len(),
            locals == body.locals@.len(),
            statements_problem_from(s@, 0, scopes as int, locals as int, sources@, files@)
                == statements_problem_from(s@, k as int, scopes as int, locals as int, sources@, files@),
        decreases s.len() - k,
    {
        if s[k].index as usize != k || s[k].source_scope as usize >= scopes {
            return failure("invalid statement/scope identity");
        }
        if !is_statement_kind(&s[k].kind) {
            return failure("unsupported compiler statement kind");
        }
        check_span(&s[k].span, sources, files)?;
        check_effects(&s[k].locals, locals)?;
        k += 1;
    }
    Ok(())
}

/// Checks one body, adding its statements (each terminator counting as one) to
/// `statements`.
#[verifier::loop_isolation(false)]
fn validate_body(
    body: &CompilerBody,
    sources: &Vec<(String, usize)>,
    files: &Vec<CapturedSource>,
    statements: &mut usize,
) -> (r: Result<(), String>)
    requires
        sources_wf(sources@, files@),
    ensures
        match r {
            Ok(()) => body_problem(*body, *old(statements) as int, sources@, files@).0 is None
                && *final(statements) as int == body_problem(*body, *old(statements) as int, sources@, files@).1,
            Err(e) => body_problem(*body, *old(statements) as int, sources@, files@).0 == Some(e@),
        },
{
    let scopes = body.source_scopes.len();
    let locals = body.locals.len();
    if locals == 0 || locals > 10_000 || body.argument_count as usize >= locals {
        return failure("invalid compiler locals");
    }
    if !is_body_kind(&body.kind) {
        return failure("unsupported compiler body kind");
    }
    if body.blocks.len() == 0 || body.blocks.len() > 10_000 || scopes == 0 || scopes > 10_000 {
        return failure("compiler body exceeds block/scope budget");
    }
    check_span(&body.span, sources, files)?;
    let mut k: usize = 0;
    while k < scopes
        invariant
            k <= scopes,
            scopes == body.source_scopes@.len(),
            sources_wf(sources@, files@),
            scopes_problem_from(body.source_scopes@, 0, sources@, files@)
                == scopes_problem_from(body.source_scopes@, k as int, sources@, files@),
        decreases scopes - k,
    {
        let scope = &body.source_scopes[k];
        let parent_ok = match scope.parent {
            Some(p) => (p as usize) < k,
            None => true,
        };
        if scope.index as usize != k || !parent_ok {
            return failure("invalid compiler scope tree");
        }
        check_span(&scope.span, sources, files)?;
        k += 1;
    }
    let mut k: usize = 0;
    while k < locals
        invariant
            k <= locals,
            scopes == body.source_scopes@.len(),
            locals == body.locals@.len(),
            sources_wf(sources@, files@),
            locals_problem_from(body.locals@, 0, scopes as int, body.argument_count as int, sources@, files@)
                == locals_problem_from(body.locals@, k as int, scopes as int, body.argument_count as int, sources@, files@),
        decreases locals - k,
    {
        let local = &body.locals[k];
        if local.index as usize != k || local.source_scope as usize >= scopes {
            return failure("invalid compiler local/scope identity");
        }
        if !has_role(local, k, body.argument_count) {
            return failure("invalid compiler local role");
        }
        check_span(&local.span, sources, files)?;
        k += 1;
    }
    let ghost start = *statements as int;
    let mut b: usize = 0;
    while b < body.blocks.len()
        invariant
            b <= body.blocks@.len(),
            sources_wf(sources@, files@),
            body_problem(*body, start, sources@, files@) == blocks_problem_from(*body, b as int, *statements as int, sources@, files@),
        decreases body.blocks.len() - b,
    {
        let block = &body.blocks[b];
        if block.index as usize != b {
            return failure("invalid compiler block identity");
        }
        let next = statements.saturating_add(block.statements.len()).saturating_add(1);
        if next > MAX_STATEMENTS {
            return failure("compiler statement budget exceeded");
        }
        check_statements(&block.statements, body, sources, files)?;
        check_terminator(&block.terminator, body, sources, files)?;
        *statements = next;
        b += 1;
    }
    Ok(())
}

// ---------------------------------------------------------------------------
// Bundle checks
// ---------------------------------------------------------------------------

/// The schema version this library reads.
pub const COMPILER_SCHEMA_VERSION: u32 = 1;

/// The largest accepted serialized bundle, in bytes.
pub const MAX_BUNDLE_BYTES: usize = 33_554_432;

/// What `serde_json::to_string` gives for a string: its JSON string literal.
pub uninterp spec fn json_string(text: Seq<char>) -> Seq<char>;

/// `serde_json::to_string` on a string, which always serializes; the literal is named,
/// not stated.
#[verifier::external_body]
fn json_text(text: &String) -> (r: String)
    ensures
        r@ == json_string(text@),
{
    match serde_json::to_string(text) {
        Ok(literal) => literal,
        Err(_) => String::new(),
    }
}

/// A crate name with `-` spelled `_`.
pub open spec fn underscored(name: Seq<char>) -> Seq<char> {
    Seq::new(name.len(), |i: int| if name[i] == '-' { '_' } else { name[i] })
}

/// Whether some crate of the selection has this root file, name and edition.
pub open spec fn crate_selected(crates: Seq<CrateInput>, inputs: CompilerInputs) -> bool {
    exists|k: int|
        0 <= k < crates.len() && (#[trigger] crates[k]).root_file@ == inputs.crate_root@
            && underscored(crates[k].name@) == inputs.crate_name@ && crates[k].edition@
            == inputs.edition@
}

/// The `cfg` values that the arguments from `i` on pass, after `acc`, or the first
/// problem: a trailing `--cfg`, or the `--cfg=` form.
pub open spec fn cfg_scan(args: Seq<String>, i: int, acc: Seq<Seq<char>>) -> Result<
    Seq<Seq<char>>,
    Seq<char>,
>
    decreases args.len() - i,
{
    if i < 0 || i >= args.len() {
        Ok(acc)
    } else if args[i]@ == "--cfg"@ {
        if i + 1 >= args.len() {
            Err("missing compiler cfg value"@)
        } else {
            cfg_scan(args, i + 2, acc.push(args[i + 1]@))
        }
    } else if args[i]@.len() >= 6 && args[i]@.subrange(0, 6) == "--cfg="@ {
        Err("compiler cfg must use the supported paired argument contract"@)
    } else {
        cfg_scan(args, i + 1, acc)
    }
}

/// The `cfg` text of one selected configuration value.
pub open spec fn cfg_text(entry: (String, Option<String>)) -> Seq<char> {
    match entry.1 {
        Some(v) => entry.0@ + "="@ + json_string(v@),
        None => entry.0@,
    }
}

/// The `cfg` text of one selected feature.
pub open spec fn feature_text(feature: String) -> Seq<char> {
    "feature="@ + json_string(feature@)
}

/// The `cfg` texts that the selection requires.
pub open spec fn expected_cfg(ctx: BuildSelection) -> Seq<Seq<char>> {
    ctx.cfg@.map_values(|e: (String, Option<String>)| cfg_text(e)) + ctx.features@.map_values(
        |f: String| feature_text(f),
    )
}

/// Whether each text orders strictly before the next, by bytes: sorted and without
/// repeats.
pub open spec fn ascending_texts(v: Seq<Seq<char>>) -> bool {
    forall|i: int, j: int|
        0 <= i && j == i + 1 && j < v.len() ==> lex_lt(encode_utf8(#[trigger] v[i]), encode_utf8(#[trigger] v[j]))
}

/// Whether two lists hold the same texts, as sets.
pub open spec fn same_texts(a: Seq<Seq<char>>, b: Seq<Seq<char>>) -> bool {
    &&& forall|x: Seq<char>| a.contains(x) ==> b.contains(x)
    &&& forall|x: Seq<char>| b.contains(x) ==> a.contains(x)
}

/// Whether `..` is a whole path component at `i`.
pub open spec fn parent_at(p: Seq<char>, i: int) -> bool {
    &&& 0 <= i
    &&& i + 1 < p.len()
    &&& (i == 0 || p[i - 1] == '/')
    &&& p[i] == '.'
    &&& p[i + 1] == '.'
    &&& (i + 2 == p.len() || p[i + 2] == '/')
}

/// Whether every component of a path is a plain name: not empty, not absolute, not
/// starting at `.`, with no `..` component.
pub open spec fn relative_path(p: Seq<char>) -> bool {
    &&& p.len() > 0
    &&& p[0] != '/'
    &&& !(p[0] == '.' && (p.len() == 1 || p[1] == '/'))
    &&& forall|i: int| !parent_at(p, i)
}

/// The first captured file, from `k` on, with this path.
pub open spec fn captured_from(files: Seq<CapturedSource>, path: Seq<char>, k: int) -> Option<usize>
    decreases files.len() - k,
{
    if k < 0 || k >= files.len() {
        None
    } else if files[k].path@ == path {
        Some(k as usize)
    } else {
        captured_from(files, path, k + 1)
    }
}

/// The first problem with manifest entry `i`, given the entries before it.
pub open spec fn manifest_entry_problem(m: Seq<CompilerSourceFile>, i: int, files: Seq<CapturedSource>) -> Option<
    Seq<char>,
> {
    if !relative_path(m[i].path@) {
        Some("compiler source path is not relative"@)
    } else if captured_from(files, m[i].path@, 0) is None {
        Some("compiler source is not captured in the selected snapshot"@)
    } else if ({
        let text = files[captured_from(files, m[i].path@, 0)->0 as int].text;
        m[i].byte_length != text_bytes(text).len() || m[i].sha256@ != sha256_hex(text_bytes(text))
    }) {
        Some("compiler source bytes do not match the selected snapshot"@)
    } else if exists|j: int| 0 <= j < i && (#[trigger] m[j]).path@ == m[i].path@ {
        Some("duplicate compiler source path"@)
    } else {
        None
    }
}

/// The first problem among manifest entries `i..`.
pub open spec fn manifest_problem_from(m: Seq<CompilerSourceFile>, i: int, files: Seq<CapturedSource>) -> Option<
    Seq<char>,
>
    decreases m.len() - i,
{
    if i < 0 || i >= m.len() {
        None
    } else if manifest_entry_problem(m, i, files) is Some {
        manifest_entry_problem(m, i, files)
    } else {
        manifest_problem_from(m, i + 1, files)
    }
}

/// Each manifest entry with the captured file it maps to.
pub open spec fn sources_of(m: Seq<CompilerSourceFile>, files: Seq<CapturedSource>) -> Seq<(String, usize)> {
    Seq::new(
        m.len(),
        |k: int|
            (
                m[k].path,
                match captured_from(files, m[k].path@, 0) {
                    Some(x) => x,
                    None => 0,
                },
            ),
    )
}

/// The identity a body must carry: `mir:` and the SHA-256 of the JSON pair of the manifest
/// hash and the body's definition path.
pub open spec fn body_identity(manifest_hash: String, def_path: String) -> Seq<char> {
    "mir:"@ + sha256_hex(json_of_texts(seq![manifest_hash@, def_path@]))
}

/// The first problem among bodies `i..`, with `count` statements counted before them.
pub open spec fn bodies_problem_from(
    b: CompilerBundle,
    i: int,
    count: int,
    sources: Seq<(String, usize)>,
    files: Seq<CapturedSource>,
) -> Option<Seq<char>>
    decreases b.bodies@.len() - i,
{
    let bodies = b.bodies@;
    if i < 0 || i >= bodies.len() {
        None
    } else if (exists|j: int| 0 <= j < i && (#[trigger] bodies[j]).body_id@ == bodies[i].body_id@)
        || bodies[i].body_id@ != body_identity(b.inputs.manifest_hash, bodies[i].def_path) {
        Some("compiler body identity mismatch"@)
    } else if body_problem(bodies[i], count, sources, files).0 is Some {
        body_problem(bodies[i], count, sources, files).0
    } else {
        bodies_problem_from(b, i + 1, body_problem(bodies[i], count, sources, files).1, sources, files)
    }
}

/// The invocation the pinned adapter records for these inputs and `cfg` values: the crate
/// root as `./` and its path, and the pinned compiler's sysroot for the target.
pub open spec fn canonical_invocation(inputs: CompilerInputs, cfg: Seq<Seq<char>>) -> Seq<Seq<char>> {
    invocation(
        "./"@ + inputs.crate_root@,
        inputs.crate_name@,
        inputs.edition@,
        inputs.target@,
        inputs.panic_strategy@,
        "compiler:55e86c996809902e8bbad512cfb4d2c18be446d9:"@ + inputs.target@,
        cfg,
    )
}

/// The first problem with the bundle's producer and inputs, before its manifest. The
/// accepted producer is the `atlas-rustc` adapter 0.1.0 built on the pinned compiler
/// commit, recording the `runtime_optimized` phase with trusted local inputs, an empty
/// environment, no MIR optimization, no compiled artifact and its canonical invocation.
pub open spec fn header_problem(
    b: CompilerBundle,
    snapshot: Snapshot,
    bundle_bytes: int,
    manifest_json: Seq<u8>,
) -> Option<Seq<char>> {
    let inputs = b.inputs;
    let ctx = snapshot.context;
    if bundle_bytes > MAX_BUNDLE_BYTES {
        Some("compiler bundle exceeds 32 MiB"@)
    } else if b.schema_version != COMPILER_SCHEMA_VERSION {
        Some("unsupported compiler schema"@)
    } else if !(b.compiler.adapter@ == "atlas-rustc"@ && b.compiler.adapter_version@ == "0.1.0"@
        && b.compiler.commit_hash@ == "55e86c996809902e8bbad512cfb4d2c18be446d9"@ && b.phase@
        == "runtime_optimized"@) {
        Some("unsupported compiler producer or MIR phase"@)
    } else if inputs.target@ != ctx.target@ {
        Some("compiler target does not match the selected context; select an explicit target"@)
    } else if ctx.default_features {
        Some(
            "compiler import requires explicit --no-default-features and explicit selected feature cfg values"@,
        )
    } else if !(inputs.trust@ == "trusted_local"@ && inputs.environment_policy@ == "empty"@) {
        Some("unsupported compiler input policy"@)
    } else if !(inputs.mir_opt_level == 0 && (inputs.panic_strategy@ == "abort"@
        || inputs.panic_strategy@ == "unwind"@)) {
        Some("unsupported compiler phase settings"@)
    } else if !crate_selected(ctx.crates@, inputs) {
        Some("compiler crate root/name/edition does not match the selected context"@)
    } else if cfg_scan(inputs.rustc_args@, 0, seq![]) is Err {
        Some(cfg_scan(inputs.rustc_args@, 0, seq![])->Err_0)
    } else if !ascending_texts(cfg_scan(inputs.rustc_args@, 0, seq![])->Ok_0) || !same_texts(
        cfg_scan(inputs.rustc_args@, 0, seq![])->Ok_0,
        expected_cfg(ctx),
    ) {
        Some("compiler cfg/features do not match the selected context"@)
    } else if texts(inputs.rustc_args@) != canonical_invocation(inputs, cfg_scan(inputs.rustc_args@, 0, seq![])->Ok_0)
        || inputs.compiled_artifact is Some {
        Some("compiler invocation differs from the pinned adapter contract"@)
    } else if inputs.manifest_hash@ != sha256_hex(manifest_json) {
        Some("compiler input manifest checksum mismatch"@)
    } else if inputs.files@.len() > 20_000 || b.bodies@.len() > 10_000 {
        Some("compiler input count exceeds budget"@)
    } else {
        None
    }
}

/// The first problem with a bundle, or `None` when it is accepted.
pub open spec fn bundle_problem(
    b: CompilerBundle,
    snapshot: Snapshot,
    files: Seq<CapturedSource>,
    bundle_bytes: int,
    manifest_json: Seq<u8>,
) -> Option<Seq<char>> {
    let m = b.inputs.files@;
    if header_problem(b, snapshot, bundle_bytes, manifest_json) is Some {
        header_problem(b, snapshot, bundle_bytes, manifest_json)
    } else if manifest_problem_from(m, 0, files) is Some {
        manifest_problem_from(m, 0, files)
    } else if source_from(sources_of(m, files), b.inputs.crate_root@, 0) is None {
        Some("compiler crate root is absent from manifest"@)
    } else {
        bodies_problem_from(b, 0, 0, sources_of(m, files), files)
    }
}

/// Whether a definition of this kind may hold a body of that kind.
pub open spec fn compatible_kind(body_kind: Seq<char>, definition_kind: Seq<char>) -> bool {
    if body_kind == "function"@ || body_kind == "associated_function"@ {
        definition_kind == "function"@ || definition_kind == "method"@
    } else if body_kind == "closure_or_coroutine"@ {
        definition_kind == "closure"@
    } else {
        false
    }
}

/// Whether definition `d` may hold a body of kind `kind` spanning `start..end` of file `file`.
pub open spec fn candidate(d: SourceDefinition, kind: Seq<char>, file: Seq<char>, start: int, end: int) -> bool {
    &&& compatible_kind(kind, d.kind@)
    &&& d.file_id@ == file
    &&& d.cfg_status != CfgStatus::Inactive
    &&& d.start <= start
    &&& d.end >= end
}

/// Whether definition `k` is the one candidate of least extent.
pub open spec fn least_candidate(defs: Seq<SourceDefinition>, k: int, kind: Seq<char>, file: Seq<char>, start: int, end: int) -> bool {
    &&& 0 <= k < defs.len()
    &&& candidate(defs[k], kind, file, start, end)
    &&& forall|j: int|
        0 <= j < defs.len() && j != k && candidate(#[trigger] defs[j], kind, file, start, end) ==> defs[j].end
            - defs[j].start > defs[k].end - defs[k].start
}

/// The mapping of an accepted body, as (matched, definition id or reason): the candidate
/// of least extent when exactly one has it, nothing otherwise.
pub open spec fn body_mapping(
    body: CompilerBody,
    sources: Seq<(String, usize)>,
    files: Seq<CapturedSource>,
    defs: Seq<SourceDefinition>,
) -> (bool, Seq<char>) {
    match body.span {
        CompilerSourceMapping::Exact { path, start_byte, end_byte } => {
            let file = files[source_from(sources, path@, 0)->0 as int].id@;
            if exists|k: int| least_candidate(defs, k, body.kind@, file, start_byte as int, end_byte as int) {
                let k = choose|k: int| least_candidate(defs, k, body.kind@, file, start_byte as int, end_byte as int);
                (true, defs[k].id@)
            } else {
                (false, unmapped_reason())
            }
        },
        CompilerSourceMapping::Unavailable { .. } => (false, unmapped_reason()),
    }
}

/// Why a body is left unmapped.
pub open spec fn unmapped_reason() -> Seq<char> {
    "No unique compatible source definition for the exact compiler span; generated or ambiguous bodies are not guessed."@
}

/// The limitation every import carries.
pub open spec fn import_limitation() -> Seq<char> {
    "Compiler imports describe one selected producer/phase, not all source bodies or runtime behavior. Producer claims are user supplied; matching hashes establish identity consistency, not authenticity."@
}

/// A mapping as (matched, definition id or reason).
pub open spec fn mapping_view(m: CompilerDefinitionMapping) -> (bool, Seq<char>) {
    match m {
        CompilerDefinitionMapping::Matched { definition_id } => (true, definition_id@),
        CompilerDefinitionMapping::Unmapped { reason } => (false, reason@),
    }
}

/// Whether every component of a path is a plain name.
fn is_relative(path: &String) -> (r: bool)
    ensures
        r == relative_path(path@),
{
    let p = path.as_str();
    let n = p.unicode_len();
    if n == 0 || p.get_char(0) == '/' {
        return false;
    }
    if p.get_char(0) == '.' && (n == 1 || p.get_char(1) == '/') {
        return false;
    }
    let mut i: usize = 0;
    while i < n
        invariant
            n == path@.len(),
            p@ == path@,
            i <= n,
            forall|j: int| 0 <= j < i ==> !parent_at(path@, j),
        decreases n - i,
    {
        if i + 1 < n && (i == 0 || p.get_char(i - 1) == '/') && p.get_char(i) == '.' && p.get_char(i + 1) == '.'
            && (i + 2 == n || p.get_char(i + 2) == '/') {
            assert(parent_at(path@, i as int));
            return false;
        }
        i += 1;
    }
    assert forall|j: int| !parent_at(path@, j) by {
        if 0 <= j && j < n {
        }
    }
    true
}

/// Whether `name` with `-` spelled `_` is `target`.
fn underscored_is(name: &String, target: &String) -> (r: bool)
    ensures
        r == (underscored(name@) == target@),
{
    let a = name.as_str();
    let b = target.as_str();
    let n = a.unicode_len();
    if n != b.unicode_len() {
        return false;
    }
    let mut i: usize = 0;
    while i < n
        invariant
            n == name@.len(),
            n == target@.len(),
            a@ == name@,
            b@ == target@,
            i <= n,
            forall|j: int| 0 <= j < i ==> underscored(name@)[j] == target@[j],
        decreases n - i,
    {
        let c = a.get_char(i);
        let u = if c == '-' { '_' } else { c };
        if u != b.get_char(i) {
            assert(underscored(name@)[i as int] != target@[i as int]);
            return false;
        }
        i += 1;
    }
    assert(underscored(name@) =~= target@);
    true
}

/// Whether some selected crate has the compiled crate's root file, name and edition.
fn crate_found(crates: &Vec<CrateInput>, inputs: &CompilerInputs) -> (r: bool)
    ensures
        r == crate_selected(crates@, *inputs),
{
    let mut k: usize = 0;
    while k < crates.len()
        invariant
            k <= crates@.len(),
            forall|j: int| 0 <= j < k ==> !((#[trigger] crates@[j]).root_file@ == inputs.crate_root@
                && underscored(crates@[j].name@) == inputs.crate_name@ && crates@[j].edition@
                == inputs.edition@),
        decreases crates.len() - k,
    {
        let c = &crates[k];
        if c.root_file == inputs.crate_root && underscored_is(&c.name, &inputs.crate_name) && c.edition == inputs.edition {
            assert(crates@[k as int].root_file@ == inputs.crate_root@);
            return true;
        }
        k += 1;
    }
    false
}

/// Whether `s` starts with `--cfg=`.
fn cfg_equals_form(s: &String) -> (r: bool)
    ensures
        r == (s@.len() >= 6 && s@.subrange(0, 6) == "--cfg="@),
{
    let t = s.as_str();
    let n = t.unicode_len();
    if n < 6 {
        return false;
    }
    let head = t.substring_char(0, 6);
    text_is(head, "--cfg=")
}

/// The `cfg` values that the arguments pass, or the first problem with them.
fn scan_cfg(args: &Vec<String>) -> (r: Result<Vec<String>, String>)
    ensures
        match cfg_scan(args@, 0, seq![]) {
            Ok(v) => r matches Ok(w) && texts(w@) == v,
            Err(e) => r matches Err(m) && m@ == e,
        },
{
    let mut found: Vec<String> = Vec::new();
    let mut i: usize = 0;
    proof {
        assert(texts(found@) =~= seq![]);
    }
    while i < args.len()
        invariant
            i <= args@.len(),
            cfg_scan(args@, 0, seq![]) == cfg_scan(args@, i as int, texts(found@)),
        decreases args.len() - i,
    {
        if text_is(args[i].as_str(), "--cfg") {
            if i + 1 >= args.len() {
                return Err("missing compiler cfg value".to_string());
            }
            let ghost before = found@;
            found.push(args[i + 1].clone());
            proof {
                assert(texts(found@) =~= texts(before).push(args@[i + 1]@));
            }
            i += 2;
        } else {
            if cfg_equals_form(&args[i]) {
                return Err("compiler cfg must use the supported paired argument contract".to_string());
            }
            i += 1;
        }
    }
    Ok(found)
}

/// The `cfg` texts that the selection requires.
fn expected_texts(ctx: &BuildSelection) -> (r: Vec<String>)
    ensures
        texts(r@) == expected_cfg(*ctx),
{
    let mut out: Vec<String> = Vec::new();
    let mut i: usize = 0;
    while i < ctx.cfg.len()
        invariant
            i <= ctx.cfg@.len(),
            texts(out@) == ctx.cfg@.take(i as int).map_values(|e: (String, Option<String>)| cfg_text(e)),
        decreases ctx.cfg.len() - i,
    {
        let entry = &ctx.cfg[i];
        let text = match &entry.1 {
            Some(v) => entry.0.clone().concat("=").concat(json_text(v).as_str()),
            None => entry.0.clone(),
        };
        let ghost before = out@;
        out.push(text);
        proof {
            assert(texts(out@) =~= texts(before).push(cfg_text(ctx.cfg@[i as int])));
            assert(ctx.cfg@.take(i + 1).map_values(|e: (String, Option<String>)| cfg_text(e)) =~= ctx.cfg@.take(
                i as int,
            ).map_values(|e: (String, Option<String>)| cfg_text(e)).push(cfg_text(ctx.cfg@[i as int])));
        }
        i += 1;
    }
    let ghost head = out@;
    let mut k: usize = 0;
    while k < ctx.features.len()
        invariant
            k <= ctx.features@.len(),
            texts(head) == ctx.cfg@.map_values(|e: (String, Option<String>)| cfg_text(e)),
            texts(out@) == texts(head) + ctx.features@.take(k as int).map_values(|f: String| feature_text(f)),
        decreases ctx.features.len() - k,
    {
        let text = "feature=".to_string().concat(json_text(&ctx.features[k]).as_str());
        let ghost before = out@;
        out.push(text);
        proof {
            assert(texts(out@) =~= texts(before).push(feature_text(ctx.features@[k as int])));
            assert(ctx.features@.take(k + 1).map_values(|f: String| feature_text(f)) =~= ctx.features@.take(
                k as int,
            ).map_values(|f: String| feature_text(f)).push(feature_text(ctx.features@[k as int])));
        }
        k += 1;
    }
    proof {
        assert(ctx.cfg@.take(ctx.cfg@.len() as int) =~= ctx.cfg@);
        assert(ctx.features@.take(ctx.features@.len() as int) =~= ctx.features@);
    }
    out
}

/// Whether each text orders strictly before the next.
fn strictly_ascending(v: &Vec<String>) -> (r: bool)
    ensures
        r == ascending_texts(texts(v@)),
{
    let mut k: usize = 1;
    while k < v.len()
        invariant
            1 <= k,
            forall|i: int, j: int|
                0 <= i && j == i + 1 && j < k && j < v@.len() ==> lex_lt(encode_utf8(#[trigger] texts(v@)[i]), encode_utf8(#[trigger] texts(v@)[j])),
        decreases v.len() - k,
    {
        if !bytes_lt(bytes_of(&v[k - 1]), bytes_of(&v[k])) {
            assert(texts(v@)[k - 1] == v@[k - 1]@);
            assert(texts(v@)[k as int] == v@[k as int]@);
            return false;
        }
        assert(texts(v@)[k - 1] == v@[k - 1]@);
        assert(texts(v@)[k as int] == v@[k as int]@);
        k += 1;
    }
    true
}

/// Whether two lists hold the same texts in the same order.
fn same_list(a: &Vec<String>, b: &Vec<String>) -> (r: bool)
    ensures
        r == (texts(a@) == texts(b@)),
{
    if a.len() != b.len() {
        proof {
            assert(texts(a@).len() != texts(b@).len());
        }
        return false;
    }
    let mut k: usize = 0;
    while k < a.len()
        invariant
            a@.len() == b@.len(),
            k <= a@.len(),
            forall|j: int| 0 <= j < k ==> (#[trigger] a@[j])@ == b@[j]@,
        decreases a.len() - k,
    {
        if a[k] != b[k] {
            assert(texts(a@)[k as int] != texts(b@)[k as int]);
            return false;
        }
        k += 1;
    }
    assert(texts(a@) =~= texts(b@));
    true
}

/// Whether a list holds a text.
fn contains_text(v: &Vec<String>, s: &String) -> (r: bool)
    ensures
        r == texts(v@).contains(s@),
{
    let mut k: usize = 0;
    while k < v.len()
        invariant
            k <= v@.len(),
            forall|j: int| 0 <= j < k ==> (#[trigger] v@[j])@ != s@,
        decreases v.len() - k,
    {
        if v[k] == *s {
            assert(texts(v@)[k as int] == s@);
            return true;
        }
        k += 1;
    }
    assert forall|j: int| 0 <= j < texts(v@).len() implies texts(v@)[j] != s@ by {
        assert(v@[j]@ != s@);
    }
    false
}

/// Whether every text of `a` is in `b`.
fn all_within(a: &Vec<String>, b: &Vec<String>) -> (r: bool)
    ensures
        r == (forall|x: Seq<char>| texts(a@).contains(x) ==> texts(b@).contains(x)),
{
    let mut k: usize = 0;
    while k < a.len()
        invariant
            k <= a@.len(),
            forall|j: int| 0 <= j < k ==> texts(b@).contains(#[trigger] texts(a@)[j]),
        decreases a.len() - k,
    {
        if !contains_text(b, &a[k]) {
            assert(texts(a@)[k as int] == a@[k as int]@);
            assert(texts(a@).contains(a@[k as int]@));
            return false;
        }
        k += 1;
    }
    assert forall|x: Seq<char>| texts(a@).contains(x) implies texts(b@).contains(x) by {
        let j = choose|j: int| 0 <= j < texts(a@).len() && texts(a@)[j] == x;
        assert(texts(b@).contains(texts(a@)[j]));
    }
    true
}

/// The first captured file with this path.
fn find_captured(files: &Vec<CapturedSource>, path: &String) -> (r: Option<usize>)
    ensures
        r == captured_from(files@, path@, 0),
{
    let mut k: usize = 0;
    while k < files.len()
        invariant
            k <= files@.len(),
            captured_from(files@, path@, 0) == captured_from(files@, path@, k as int),
        decreases files.len() - k,
    {
        if files[k].path == *path {
            return Some(k);
        }
        k += 1;
    }
    None
}

/// Checks the manifest entries against the captured files, returning each entry with the
/// captured file it maps to.
#[verifier::loop_isolation(false)]
fn check_manifest(m: &Vec<CompilerSourceFile>, files: &Vec<CapturedSource>) -> (r: Result<
    Vec<(String, usize)>,
    String,
>)
    ensures
        match manifest_problem_from(m@, 0, files@) {
            None => r matches Ok(s) && s@ == sources_of(m@, files@) && sources_wf(s@, files@),
            Some(e) => r matches Err(x) && x@ == e,
        },
{
    let mut sources: Vec<(String, usize)> = Vec::new();
    let mut i: usize = 0;
    while i < m.len()
        invariant
            i <= m@.len(),
            manifest_problem_from(m@, 0, files@) == manifest_problem_from(m@, i as int, files@),
            sources@.len() == i,
            forall|k: int| 0 <= k < i ==> #[trigger] sources@[k] == sources_of(m@, files@)[k],
            sources_wf(sources@, files@),
        decreases m.len() - i,
    {
        let entry = &m[i];
        if !is_relative(&entry.path) {
            return Err("compiler source path is not relative".to_string());
        }
        let found = find_captured(files, &entry.path);
        let index = match found {
            Some(x) => x,
            None => {
                return Err("compiler source is not captured in the selected snapshot".to_string());
            },
        };
        let total = files.len();
        proof {
            lemma_captured_in_range(files@, entry.path@, 0);
        }
        let bytes = bytes_of(&files[index].text);
        let digest = sha256_text(bytes);
        if entry.byte_length as usize != bytes.len() || digest != entry.sha256 {
            return Err("compiler source bytes do not match the selected snapshot".to_string());
        }
        let mut j: usize = 0;
        while j < i
            invariant
                j <= i < m@.len(),
                *entry == m@[i as int],
                forall|k: int| 0 <= k < j ==> (#[trigger] m@[k]).path@ != m@[i as int].path@,
            decreases i - j,
        {
            if m[j].path == entry.path {
                assert(m@[j as int].path@ == m@[i as int].path@);
                return Err("duplicate compiler source path".to_string());
            }
            j += 1;
        }
        sources.push((entry.path.clone(), index));
        i += 1;
    }
    proof {
        assert(sources@ =~= sources_of(m@, files@));
    }
    Ok(sources)
}

proof fn lemma_captured_in_range(files: Seq<CapturedSource>, path: Seq<char>, k: int)
    requires
        files.len() <= usize::MAX,
    ensures
        captured_from(files, path, k) matches Some(i) ==> i < files.len() && files[i as int].path@ == path,
    decreases files.len() - k,
{
    if 0 <= k < files.len() && files[k].path@ != path {
        lemma_captured_in_range(files, path, k + 1);
    }
}

/// Whether a definition may hold a body of this kind spanning `start..end` of `file`.
fn is_candidate(d: &SourceDefinition, kind: &String, file: &String, start: u32, end: u32) -> (r: bool)
    ensures
        r == candidate(*d, kind@, file@, start as int, end as int),
{
    let k = kind.as_str();
    let dk = d.kind.as_str();
    let compatible = if text_is(k, "function") || text_is(k, "associated_function") {
        text_is(dk, "function") || text_is(dk, "method")
    } else if text_is(k, "closure_or_coroutine") {
        text_is(dk, "closure")
    } else {
        false
    };
    let active = match d.cfg_status {
        CfgStatus::Inactive => false,
        _ => true,
    };
    compatible && d.file_id == *file && active && d.start <= start && d.end >= end
}

/// The definition a body maps to: the candidate of least extent when exactly one has it.
#[verifier::loop_isolation(false)]
fn map_body(
    body: &CompilerBody,
    sources: &Vec<(String, usize)>,
    files: &Vec<CapturedSource>,
    defs: &Vec<SourceDefinition>,
) -> (r: CompilerDefinitionMapping)
    requires
        sources_wf(sources@, files@),
        span_problem(body.span, sources@, files@) is None,
    ensures
        mapping_view(r) == body_mapping(*body, sources@, files@, defs@),
{
    let unmapped = "No unique compatible source definition for the exact compiler span; generated or ambiguous bodies are not guessed.";
    match &body.span {
        CompilerSourceMapping::Exact { path, start_byte, end_byte } => {
            let index = match find_source(sources, path) {
                Some(x) => x,
                None => {
                    return CompilerDefinitionMapping::Unmapped { reason: unmapped.to_string() };
                },
            };
            proof {
                lemma_source_from_in_range(sources@, files@, path@, 0);
            }
            let file = &files[index].id;
            let start = *start_byte;
            let end = *end_byte;
            let ghost kind = body.kind@;
            let mut best: Option<usize> = None;
            let mut tie = false;
            let mut k: usize = 0;
            while k < defs.len()
                invariant
                    k <= defs@.len(),
                    start <= end,
                    best is None ==> forall|j: int| 0 <= j < k ==> !candidate(#[trigger] defs@[j], kind, file@, start as int, end as int),
                    best matches Some(b) ==> {
                        &&& b < k
                        &&& candidate(defs@[b as int], kind, file@, start as int, end as int)
                        &&& defs@[b as int].start <= defs@[b as int].end
                        &&& forall|j: int| 0 <= j < k && candidate(#[trigger] defs@[j], kind, file@, start as int, end as int)
                            ==> defs@[j].end - defs@[j].start >= defs@[b as int].end - defs@[b as int].start
                        &&& tie == exists|j: int| 0 <= j < k && j != b && candidate(#[trigger] defs@[j], kind, file@, start as int, end as int)
                            && defs@[j].end - defs@[j].start == defs@[b as int].end - defs@[b as int].start
                    },
                decreases defs.len() - k,
            {
                let d = &defs[k];
                assert(*d == defs@[k as int]);
                if is_candidate(d, &body.kind, file, start, end) {
                    let extent = d.end - d.start;
                    match best {
                        None => {
                            best = Some(k);
                            tie = false;
                        },
                        Some(b) => {
                            let least = defs[b].end - defs[b].start;
                            if extent < least {
                                best = Some(k);
                                tie = false;
                            } else if extent == least {
                                assert(defs@[k as int].end - defs@[k as int].start == defs@[b as int].end - defs@[b as int].start);
                                tie = true;
                            }
                        },
                    }
                }
                k += 1;
            }
            match best {
                Some(b) => {
                    if !tie {
                        assert(least_candidate(defs@, b as int, kind, file@, start as int, end as int));
                        assert forall|x: int| least_candidate(defs@, x, kind, file@, start as int, end as int) implies x == b by {
                            if x != b {
                                assert(candidate(defs@[x], kind, file@, start as int, end as int));
                            }
                        }
                        return CompilerDefinitionMapping::Matched { definition_id: defs[b].id.clone() };
                    }
                    assert forall|x: int| !least_candidate(defs@, x, kind, file@, start as int, end as int) by {
                        if least_candidate(defs@, x, kind, file@, start as int, end as int) {
                            let j = choose|j: int| 0 <= j < defs@.len() && j != b && candidate(#[trigger] defs@[j], kind, file@, start as int, end as int)
                                && defs@[j].end - defs@[j].start == defs@[b as int].end - defs@[b as int].start;
                            if x == b as int {
                                assert(candidate(defs@[j], kind, file@, start as int, end as int));
                            } else {
                                assert(candidate(defs@[b as int], kind, file@, start as int, end as int));
                            }
                        }
                    }
                },
                None => {},
            }
            CompilerDefinitionMapping::Unmapped { reason: unmapped.to_string() }
        },
        CompilerSourceMapping::Unavailable { .. } => CompilerDefinitionMapping::Unmapped {
            reason: unmapped.to_string(),
        },
    }
}

/// What an accepted bundle yields: the snapshot and context it belongs to, the bundle
/// itself, each body's mapping in body order, and partial coverage that keeps the
/// bundle's own limitations after the import's.
pub open spec fn import_holds(
    imp: CompilerImport,
    b: CompilerBundle,
    snapshot: Snapshot,
    files: Seq<CapturedSource>,
    defs: Seq<SourceDefinition>,
) -> bool {
    let sources = sources_of(b.inputs.files@, files);
    &&& imp.snapshot_id@ == snapshot.id@
    &&& imp.context_id@ == snapshot.context.id@
    &&& imp.bundle == b
    &&& imp.mappings@.len() == b.bodies@.len()
    &&& forall|k: int|
        0 <= k < b.bodies@.len() ==> (#[trigger] imp.mappings@[k]).body_id@ == b.bodies@[k].body_id@
            && mapping_view(imp.mappings@[k].mapping) == body_mapping(b.bodies@[k], sources, files, defs)
    &&& imp.coverage.status == Status::Partial
    &&& imp.coverage.reasons@ == seq![ReasonCount { reason: UnknownReason::UnsupportedConstruct, count: 1 }]
    &&& texts(imp.coverage.limitations@) == seq![import_limitation()] + texts(b.limitations@)
}

/// The identity a body must carry.
fn expected_identity(manifest_hash: &String, def_path: &String) -> (r: String)
    ensures
        r@ == body_identity(*manifest_hash, *def_path),
{
    let mut pair: Vec<String> = Vec::new();
    pair.push(manifest_hash.clone());
    pair.push(def_path.clone());
    proof {
        assert(texts(pair@) =~= seq![manifest_hash@, def_path@]);
    }
    let json = json_bytes(&pair);
    let digest = sha256_text(json.as_slice());
    "mir:".to_string().concat(digest.as_str())
}

/// Checks the producer and inputs of a bundle, before its manifest.
#[verifier::rlimit(50)]
fn check_header(b: &CompilerBundle, snapshot: &Snapshot, bundle_bytes: usize, manifest_json: &Vec<u8>) -> (r: Result<(), String>)
    ensures
        match header_problem(*b, *snapshot, bundle_bytes as int, manifest_json@) {
            None => r is Ok,
            Some(e) => r matches Err(x) && x@ == e,
        },
{
    let inputs = &b.inputs;
    let ctx = &snapshot.context;
    if bundle_bytes > MAX_BUNDLE_BYTES {
        return failure("compiler bundle exceeds 32 MiB");
    }
    if b.schema_version != COMPILER_SCHEMA_VERSION {
        return failure("unsupported compiler schema");
    }
    if !(text_is(b.compiler.adapter.as_str(), "atlas-rustc") && text_is(b.compiler.adapter_version.as_str(), "0.1.0")
        && text_is(
        b.compiler.commit_hash.as_str(),
        "55e86c996809902e8bbad512cfb4d2c18be446d9",
    ) && text_is(b.phase.as_str(), "runtime_optimized")) {
        return failure("unsupported compiler producer or MIR phase");
    }
    if inputs.target != ctx.target {
        return failure("compiler target does not match the selected context; select an explicit target");
    }
    if ctx.default_features {
        return failure(
            "compiler import requires explicit --no-default-features and explicit selected feature cfg values",
        );
    }
    if !(text_is(inputs.trust.as_str(), "trusted_local") && text_is(inputs.environment_policy.as_str(), "empty")) {
        return failure("unsupported compiler input policy");
    }
    if !(inputs.mir_opt_level == 0 && (text_is(inputs.panic_strategy.as_str(), "abort") || text_is(
        inputs.panic_strategy.as_str(),
        "unwind",
    ))) {
        return failure("unsupported compiler phase settings");
    }
    if !crate_found(&ctx.crates, inputs) {
        return failure("compiler crate root/name/edition does not match the selected context");
    }
    let cfg = match scan_cfg(&inputs.rustc_args) {
        Ok(v) => v,
        Err(m) => {
            return Err(m);
        },
    };
    let expected = expected_texts(ctx);
    if !(strictly_ascending(&cfg) && all_within(&cfg, &expected) && all_within(&expected, &cfg)) {
        return failure("compiler cfg/features do not match the selected context");
    }
    let root = "./".to_string().concat(inputs.crate_root.as_str());
    let sysroot = "compiler:55e86c996809902e8bbad512cfb4d2c18be446d9:".to_string().concat(inputs.target.as_str());
    let canonical = invocation_args(
        &root,
        &inputs.crate_name,
        &inputs.edition,
        &inputs.target,
        &inputs.panic_strategy,
        &sysroot,
        &cfg,
    );
    if !same_list(&canonical, &inputs.rustc_args) || inputs.compiled_artifact.is_some() {
        return failure("compiler invocation differs from the pinned adapter contract");
    }
    let digest = sha256_text(manifest_json.as_slice());
    if digest != inputs.manifest_hash {
        return failure("compiler input manifest checksum mismatch");
    }
    if inputs.files.len() > 20_000 || b.bodies.len() > 10_000 {
        return failure("compiler input count exceeds budget");
    }
    Ok(())
}

/// Checks a compiler bundle against the selected snapshot and its captured files: the
/// producer and its invocation, the `cfg` values and features of the selection, the
/// manifest checksum, the captured bytes of every source the compiler read, each body's
/// identity, and the internal consistency of every body (scopes, locals and their roles,
/// statements, effects, spans, successor edges, terminator shapes and metadata). It maps
/// each body to the one compatible definition of least extent that encloses its span, when
/// exactly one has that extent. Returns the message of the first failed check.
///
/// `bundle_bytes` is the length of the bundle's JSON serialization, and `manifest_json`
/// the JSON serialization of its compiler identity, phase and inputs with an empty
/// manifest hash; both are produced by the caller, which owns serialization.
#[verifier::loop_isolation(false)]
pub fn validate(
    bundle: CompilerBundle,
    snapshot: &Snapshot,
    files: &Vec<CapturedSource>,
    definitions: &Vec<SourceDefinition>,
    bundle_bytes: usize,
    manifest_json: &Vec<u8>,
) -> (r: Result<CompilerImport, String>)
    ensures
        match bundle_problem(bundle, *snapshot, files@, bundle_bytes as int, manifest_json@) {
            Some(e) => r matches Err(m) && m@ == e,
            None => r matches Ok(imp) && import_holds(imp, bundle, *snapshot, files@, definitions@),
        },
{
    match check_header(&bundle, snapshot, bundle_bytes, manifest_json) {
        Ok(()) => {},
        Err(m) => {
            return Err(m);
        },
    }
    let sources = match check_manifest(&bundle.inputs.files, files) {
        Ok(s) => s,
        Err(m) => {
            return Err(m);
        },
    };
    if find_source(&sources, &bundle.inputs.crate_root).is_none() {
        return Err("compiler crate root is absent from manifest".to_string());
    }
    let ghost m = bundle.inputs.files@;
    let mut statements: usize = 0;
    let mut mappings: Vec<CompilerBodyMapping> = Vec::new();
    let mut i: usize = 0;
    while i < bundle.bodies.len()
        invariant
            i <= bundle.bodies@.len(),
            sources@ == sources_of(m, files@),
            sources_wf(sources@, files@),
            bundle_problem(bundle, *snapshot, files@, bundle_bytes as int, manifest_json@)
                == bodies_problem_from(bundle, i as int, statements as int, sources@, files@),
            mappings@.len() == i,
            forall|k: int|
                0 <= k < i ==> (#[trigger] mappings@[k]).body_id@ == bundle.bodies@[k].body_id@
                    && mapping_view(mappings@[k].mapping) == body_mapping(bundle.bodies@[k], sources@, files@, definitions@),
        decreases bundle.bodies.len() - i,
    {
        let body = &bundle.bodies[i];
        let expected = expected_identity(&bundle.inputs.manifest_hash, &body.def_path);
        let mut repeated = false;
        let mut j: usize = 0;
        while j < i
            invariant
                j <= i,
                repeated == exists|x: int| 0 <= x < j && (#[trigger] bundle.bodies@[x]).body_id@ == bundle.bodies@[i as int].body_id@,
            decreases i - j,
        {
            if bundle.bodies[j].body_id == body.body_id {
                assert(bundle.bodies@[j as int].body_id@ == bundle.bodies@[i as int].body_id@);
                repeated = true;
            }
            j += 1;
        }
        if repeated || expected != body.body_id {
            return Err("compiler body identity mismatch".to_string());
        }
        match validate_body(body, &sources, files, &mut statements) {
            Ok(()) => {},
            Err(e) => {
                return Err(e);
            },
        }
        let mapping = map_body(body, &sources, files, definitions);
        mappings.push(CompilerBodyMapping { body_id: body.body_id.clone(), mapping });
        i += 1;
    }
    let mut coverage = Coverage::partial(
        UnknownReason::UnsupportedConstruct,
        "Compiler imports describe one selected producer/phase, not all source bodies or runtime behavior. Producer claims are user supplied; matching hashes establish identity consistency, not authenticity.",
    );
    let mut k: usize = 0;
    while k < bundle.limitations.len()
        invariant
            k <= bundle.limitations@.len(),
            coverage.status == Status::Partial,
            coverage.reasons@ == seq![ReasonCount { reason: UnknownReason::UnsupportedConstruct, count: 1 }],
            texts(coverage.limitations@) == seq![import_limitation()] + texts(bundle.limitations@.take(k as int)),
        decreases bundle.limitations.len() - k,
    {
        let ghost before = coverage.limitations@;
        coverage.limitations.push(bundle.limitations[k].clone());
        proof {
            assert(texts(coverage.limitations@) =~= texts(before).push(bundle.limitations@[k as int]@));
            assert(texts(bundle.limitations@.take(k + 1)) =~= texts(bundle.limitations@.take(k as int)).push(
                bundle.limitations@[k as int]@,
            ));
        }
        k += 1;
    }
    proof {
        assert(bundle.limitations@.take(bundle.limitations@.len() as int) =~= bundle.limitations@);
    }
    let context_id = snapshot.context.id.clone();
    Ok(CompilerImport { snapshot_id: snapshot.id.clone(), context_id, bundle, mappings, coverage })
}

// ---------------------------------------------------------------------------
// Producing a bundle
// ---------------------------------------------------------------------------

/// The compiler arguments a bundle records for one library crate: the pinned flags in
/// order, then each `cfg` value after its own `--cfg`.
pub open spec fn invocation(
    source: Seq<char>,
    crate_name: Seq<char>,
    edition: Seq<char>,
    target: Seq<char>,
    panic_strategy: Seq<char>,
    sysroot: Seq<char>,
    cfg: Seq<Seq<char>>,
) -> Seq<Seq<char>> {
    seq![
        "atlas-rustc"@,
        source,
        "--crate-name"@,
        crate_name,
        "--crate-type=lib"@,
        "--edition="@ + edition,
        "--target="@ + target,
        "-Cpanic="@ + panic_strategy,
        "-Copt-level=0"@,
        "-Coverflow-checks=yes"@,
        "-Zmir-opt-level=0"@,
        "--emit=metadata"@,
        "--sysroot"@,
        sysroot,
        "--error-format=json"@,
    ] + cfg_pairs(cfg)
}

/// Each `cfg` value after its own `--cfg`.
pub open spec fn cfg_pairs(cfg: Seq<Seq<char>>) -> Seq<Seq<char>>
    decreases cfg.len(),
{
    if cfg.len() == 0 {
        seq![]
    } else {
        cfg_pairs(cfg.drop_last()) + seq!["--cfg"@, cfg.last()]
    }
}

/// The compiler arguments for one library crate.
pub fn invocation_args(
    source: &String,
    crate_name: &String,
    edition: &String,
    target: &String,
    panic_strategy: &String,
    sysroot: &String,
    cfg: &Vec<String>,
) -> (r: Vec<String>)
    ensures
        texts(r@) == invocation(source@, crate_name@, edition@, target@, panic_strategy@, sysroot@, texts(cfg@)),
{
    let mut args: Vec<String> = Vec::new();
    args.push("atlas-rustc".to_string());
    args.push(source.clone());
    args.push("--crate-name".to_string());
    args.push(crate_name.clone());
    args.push("--crate-type=lib".to_string());
    args.push("--edition=".to_string().concat(edition.as_str()));
    args.push("--target=".to_string().concat(target.as_str()));
    args.push("-Cpanic=".to_string().concat(panic_strategy.as_str()));
    args.push("-Copt-level=0".to_string());
    args.push("-Coverflow-checks=yes".to_string());
    args.push("-Zmir-opt-level=0".to_string());
    args.push("--emit=metadata".to_string());
    args.push("--sysroot".to_string());
    args.push(sysroot.clone());
    args.push("--error-format=json".to_string());
    let ghost head = texts(args@);
    proof {
        assert(head =~= invocation(source@, crate_name@, edition@, target@, panic_strategy@, sysroot@, seq![]));
        assert(texts(cfg@).take(0) =~= seq![]);
    }
    let mut k: usize = 0;
    while k < cfg.len()
        invariant
            k <= cfg@.len(),
            texts(args@) == head + cfg_pairs(texts(cfg@).take(k as int)),
        decreases cfg.len() - k,
    {
        let ghost before = texts(args@);
        args.push("--cfg".to_string());
        args.push(cfg[k].clone());
        proof {
            assert(texts(cfg@).take(k + 1).drop_last() =~= texts(cfg@).take(k as int));
            assert(texts(args@) =~= before + seq!["--cfg"@, cfg@[k as int]@]);
        }
        k += 1;
    }
    proof {
        assert(texts(cfg@).take(cfg@.len() as int) =~= texts(cfg@));
    }
    args
}

/// Whether two bodies agree in everything but their identity.
pub open spec fn same_but_identity(a: CompilerBody, b: CompilerBody) -> bool {
    &&& a.def_path == b.def_path
    &&& a.kind == b.kind
    &&& a.span == b.span
    &&& a.argument_count == b.argument_count
    &&& a.locals == b.locals
    &&& a.source_scopes == b.source_scopes
    &&& a.blocks == b.blocks
}

/// Whether two bodies share a definition path.
pub open spec fn paths_repeat(bodies: Seq<CompilerBody>) -> bool {
    exists|i: int, j: int| 0 <= i < j < bodies.len() && (#[trigger] bodies[i]).def_path@ == (#[trigger] bodies[j]).def_path@
}

/// Gives each body the identity that `validate` asks for, refusing bodies that share a
/// definition path; nothing else of a body changes.
pub fn seal_bodies(manifest_hash: &String, bodies: &mut Vec<CompilerBody>) -> (r: Result<(), String>)
    ensures
        r is Err <==> paths_repeat(old(bodies)@),
        r matches Err(m) ==> m@ == "ambiguous compiler item path"@,
        r is Ok ==> final(bodies)@.len() == old(bodies)@.len() && forall|k: int|
            0 <= k < old(bodies)@.len() ==> (#[trigger] final(bodies)@[k]).body_id@ == body_identity(
                *manifest_hash,
                old(bodies)@[k].def_path,
            ) && same_but_identity(final(bodies)@[k], old(bodies)@[k]),
{
    let n = bodies.len();
    let mut i: usize = 0;
    while i < n
        invariant
            n == bodies@.len(),
            *bodies == *old(bodies),
            i <= n,
            forall|a: int, b: int| 0 <= a < b < i ==> (#[trigger] bodies@[a]).def_path@ != (#[trigger] bodies@[b]).def_path@,
        decreases n - i,
    {
        let mut j: usize = 0;
        while j < i
            invariant
                n == bodies@.len(),
                j <= i < n,
                forall|a: int| 0 <= a < j ==> (#[trigger] bodies@[a]).def_path@ != bodies@[i as int].def_path@,
            decreases i - j,
        {
            if bodies[j].def_path == bodies[i].def_path {
                assert(bodies@[j as int].def_path@ == bodies@[i as int].def_path@);
                return Err("ambiguous compiler item path".to_string());
            }
            j += 1;
        }
        i += 1;
    }
    let ghost original = bodies@;
    let mut pending: Vec<CompilerBody> = Vec::new();
    while bodies.len() > 0
        invariant
            original == old(bodies)@,
            bodies@.len() + pending@.len() == original.len(),
            bodies@ == original.take(bodies@.len() as int),
            forall|j: int| 0 <= j < pending@.len() ==> #[trigger] pending@[j] == original[original.len() - 1 - j],
        decreases bodies@.len(),
    {
        let body = bodies.pop().unwrap();
        pending.push(body);
        proof {
            assert(bodies@ =~= original.take(bodies@.len() as int));
        }
    }
    let mut k: usize = 0;
    while pending.len() > 0
        invariant
            original == old(bodies)@,
            n == original.len(),
            !paths_repeat(original),
            k + pending@.len() == n,
            bodies@.len() == k,
            forall|j: int| 0 <= j < pending@.len() ==> #[trigger] pending@[j] == original[n - 1 - j],
            forall|x: int|
                0 <= x < k ==> same_but_identity(#[trigger] bodies@[x], original[x])
                    && bodies@[x].body_id@ == body_identity(*manifest_hash, original[x].def_path),
        decreases pending@.len(),
    {
        let mut body = pending.pop().unwrap();
        assert(body == original[k as int]);
        body.body_id = expected_identity(manifest_hash, &body.def_path);
        bodies.push(body);
        k += 1;
    }
    Ok(())
}

} // verus!
