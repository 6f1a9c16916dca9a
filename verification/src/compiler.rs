//! Imported compiler control-flow graphs: the records a measure reads, and the guard on
//! each block's terminator and successor edges.
use crate::decimal::{decimal_chars, digits_value, parse_u128, parses_u128, unsigned_digits};
use crate::envelope::{invalid, AnalysisError};
use crate::model::Coverage;
use crate::text::{text_bytes, text_is};
use vstd::prelude::*;
use vstd::string::StringSliceAdditionalSpecFns;

verus! {

/// Why control may pass from a block to a successor.
#[derive(Debug, Clone, Copy, PartialEq, Eq, Structural)]
pub enum CompilerEdgeKind {
    Normal,
    Unwind,
    SwitchValue,
    Otherwise,
    Imaginary,
    Resume,
    CoroutineDrop,
}

/// One successor edge; switch edges carry their canonical decimal value.
#[derive(Debug, Clone)]
pub struct CompilerSuccessor {
    pub target: u32,
    pub kind: CompilerEdgeKind,
    pub switch_value: Option<String>,
}

/// What happens when the terminator unwinds.
#[derive(Debug, Clone)]
pub enum CompilerUnwind {
    Continue,
    Unreachable,
    Terminate { reason: String },
    Cleanup { target: u32 },
}

/// Where compiled code comes from in the source, when that is known.
#[derive(Debug, Clone, PartialEq, Eq)]
pub enum CompilerSourceMapping {
    Exact { path: String, start_byte: u32, end_byte: u32 },
    Unavailable { reason: String },
}

/// A memory effect that the compiler could not attribute to whole locals.
#[derive(Debug, Clone, Copy, PartialEq, Eq, Structural)]
pub enum CompilerUnknownEffect {
    Call,
    IndirectCall,
    Intrinsic,
    Drop,
    InlineAssembly,
    PointerAliasing,
    BorrowAliasing,
    PartialWrite,
    Retag,
    ExternalState,
}

/// What one statement or terminator does to whole locals, by local index.
#[derive(Debug, Clone)]
pub struct CompilerLocalEffects {
    pub defs: Vec<u32>,
    pub uses: Vec<u32>,
    pub moves: Vec<u32>,
    pub storage_live: Vec<u32>,
    pub storage_dead: Vec<u32>,
    pub unknown_effects: Vec<CompilerUnknownEffect>,
}

/// One statement of a block, at its execution position `index`.
#[derive(Debug, Clone)]
pub struct CompilerStatement {
    pub index: u32,
    pub kind: String,
    pub source_scope: u32,
    pub span: CompilerSourceMapping,
    pub locals: CompilerLocalEffects,
}

/// One local of a body.
#[derive(Debug, Clone)]
pub struct CompilerLocal {
    pub index: u32,
    pub role: String,
    pub names: Vec<String>,
    pub type_display: String,
    pub source_scope: u32,
    pub span: CompilerSourceMapping,
}

/// What a call terminator calls: a named function definition, or an indirect callable
/// whose runtime target is unknown.
#[derive(Debug, Clone)]
pub enum CompilerCallTarget {
    FunctionDefinition { def_path: String, is_local: bool },
    Indirect { reason: String },
}

/// The terminator of a basic block. `normal_return_defs` are the locals that a call
/// assigns when it returns normally; `call_target` is present on calls, `assert_expected`
/// on assertions.
#[derive(Debug, Clone)]
pub struct CompilerTerminator {
    pub kind: String,
    pub source_scope: u32,
    pub span: CompilerSourceMapping,
    pub locals: CompilerLocalEffects,
    pub normal_return_defs: Vec<u32>,
    pub successors: Vec<CompilerSuccessor>,
    pub unwind: Option<CompilerUnwind>,
    pub call_target: Option<CompilerCallTarget>,
    pub assert_expected: Option<bool>,
}

/// A basic block, by its compiler index.
#[derive(Debug, Clone)]
pub struct CompilerBlock {
    pub index: u32,
    pub is_cleanup: bool,
    pub statements: Vec<CompilerStatement>,
    pub terminator: CompilerTerminator,
}

/// One lexical scope of a body; scopes form a tree through `parent`.
#[derive(Debug, Clone)]
pub struct CompilerSourceScope {
    pub index: u32,
    pub parent: Option<u32>,
    pub span: CompilerSourceMapping,
    pub inlined_def_path: Option<String>,
}

/// One compiled body; locals `1..=argument_count` are its arguments and local 0 its
/// return place.
#[derive(Debug, Clone)]
pub struct CompilerBody {
    pub body_id: String,
    pub def_path: String,
    pub kind: String,
    pub span: CompilerSourceMapping,
    pub argument_count: u32,
    pub locals: Vec<CompilerLocal>,
    pub source_scopes: Vec<CompilerSourceScope>,
    pub blocks: Vec<CompilerBlock>,
}

impl Default for CompilerLocalEffects {
    fn default() -> (r: Self)
        ensures
            r.defs@.len() == 0,
            r.uses@.len() == 0,
            r.moves@.len() == 0,
            r.storage_live@.len() == 0,
            r.storage_dead@.len() == 0,
            r.unknown_effects@.len() == 0,
    {
        CompilerLocalEffects {
            defs: Vec::new(),
            uses: Vec::new(),
            moves: Vec::new(),
            storage_live: Vec::new(),
            storage_dead: Vec::new(),
            unknown_effects: Vec::new(),
        }
    }
}

/// The compiler that produced an import.
#[derive(Debug, Clone)]
pub struct CompilerIdentity {
    pub adapter: String,
    pub adapter_version: String,
    pub release: String,
    pub commit_hash: String,
    pub commit_date: String,
    pub host: String,
    pub llvm_version: String,
}

/// A page of one imported body's blocks.
#[derive(Debug, Clone)]
pub struct CompilerFlowPage {
    pub import_id: String,
    pub definition_id: String,
    pub compiler: CompilerIdentity,
    pub phase: String,
    pub input_manifest_hash: String,
    pub panic_strategy: String,
    pub offset: u32,
    pub total_blocks: u32,
    pub next_offset: Option<u32>,
    pub coverage: Coverage,
    pub body: CompilerBody,
}

impl CompilerSourceMapping {
    /// An equal mapping.
    pub fn copy(&self) -> (r: Self)
        ensures
            r == *self,
    {
        match self {
            CompilerSourceMapping::Exact { path, start_byte, end_byte } => CompilerSourceMapping::Exact {
                path: path.clone(),
                start_byte: *start_byte,
                end_byte: *end_byte,
            },
            CompilerSourceMapping::Unavailable { reason } => CompilerSourceMapping::Unavailable {
                reason: reason.clone(),
            },
        }
    }
}

impl CompilerIdentity {
    /// An equal identity.
    pub fn copy(&self) -> (r: Self)
        ensures
            r == *self,
    {
        CompilerIdentity {
            adapter: self.adapter.clone(),
            adapter_version: self.adapter_version.clone(),
            release: self.release.clone(),
            commit_hash: self.commit_hash.clone(),
            commit_date: self.commit_date.clone(),
            host: self.host.clone(),
            llvm_version: self.llvm_version.clone(),
        }
    }
}

// ---------------------------------------------------------------------------
// The terminator guard
// ---------------------------------------------------------------------------

/// Number of edges of kind `k`.
pub open spec fn kind_count(s: Seq<CompilerSuccessor>, k: CompilerEdgeKind) -> nat
    decreases s.len(),
{
    if s.len() == 0 {
        0
    } else {
        kind_count(s.drop_last(), k) + if s.last().kind == k {
            1nat
        } else {
            0nat
        }
    }
}

/// The number a switch value string denotes.
pub open spec fn switch_number(s: String) -> nat {
    digits_value(unsigned_digits(text_bytes(s)))
}

/// The first problem with edge `i`, given the edges before it.
pub open spec fn edge_problem(s: Seq<CompilerSuccessor>, i: int) -> Option<Seq<char>> {
    let e = s[i];
    if e.kind == CompilerEdgeKind::SwitchValue {
        if !(e.switch_value matches Some(v) && parses_u128(text_bytes(v))) {
            Some("switch edge requires a valid unsigned 128-bit value"@)
        } else if e.switch_value->0@ != decimal_chars(switch_number(e.switch_value->0)) || exists|j: int|
            0 <= j < i && (#[trigger] s[j]).kind == CompilerEdgeKind::SwitchValue && switch_number(
                s[j].switch_value->0,
            ) == switch_number(e.switch_value->0) {
            Some("switch values must be distinct canonical decimal strings"@)
        } else {
            None
        }
    } else if e.switch_value is Some {
        Some("non-switch edge has a switch value"@)
    } else {
        None
    }
}

/// The first problem among edges `i..`.
pub open spec fn edges_problem_from(s: Seq<CompilerSuccessor>, i: int) -> Option<Seq<char>>
    decreases s.len() - i,
{
    if i < 0 || i >= s.len() {
        None
    } else if edge_problem(s, i) is Some {
        edge_problem(s, i)
    } else {
        edges_problem_from(s, i + 1)
    }
}

/// The problem with the terminator's unwind metadata, if any.
pub open spec fn unwind_problem(t: CompilerTerminator) -> Option<Seq<char>> {
    let s = t.successors@;
    match t.unwind {
        Some(CompilerUnwind::Cleanup { target }) => if kind_count(s, CompilerEdgeKind::Unwind) != 1
            || !exists|j: int|
            0 <= j < s.len() && (#[trigger] s[j]).kind == CompilerEdgeKind::Unwind && s[j].target
                == target {
            Some("cleanup unwind and successor disagree"@)
        } else {
            None
        },
        _ => if kind_count(s, CompilerEdgeKind::Unwind) != 0 {
            Some("unwind successor lacks matching cleanup metadata"@)
        } else {
            None
        },
    }
}

/// Whether the successors have the shape the terminator kind requires.
pub open spec fn shape_ok(t: CompilerTerminator) -> bool {
    let s = t.successors@;
    let normal = kind_count(s, CompilerEdgeKind::Normal);
    let unwind = kind_count(s, CompilerEdgeKind::Unwind);
    let drops = kind_count(s, CompilerEdgeKind::CoroutineDrop);
    let total = s.len();
    let k = t.kind@;
    if k == "goto"@ {
        normal == 1 && total == 1 && t.unwind is None
    } else if k == "switch_int"@ {
        kind_count(s, CompilerEdgeKind::Otherwise) == 1 && total == kind_count(
            s,
            CompilerEdgeKind::SwitchValue,
        ) + 1 && t.unwind is None
    } else if k == "return"@ || k == "unwind_resume"@ || k == "unreachable"@ || k
        == "coroutine_drop"@ || k == "tail_call"@ {
        total == 0 && t.unwind is None
    } else if k == "unwind_terminate"@ {
        total == 0 && t.unwind matches Some(CompilerUnwind::Terminate { .. })
    } else if k == "drop"@ {
        normal == 1 && drops <= 1 && total == normal + drops + unwind && t.unwind is Some
    } else if k == "call"@ {
        normal <= 1 && total == normal + unwind && t.unwind is Some
    } else if k == "assert"@ || k == "false_unwind"@ {
        normal == 1 && total == normal + unwind && t.unwind is Some
    } else if k == "yield"@ {
        kind_count(s, CompilerEdgeKind::Resume) == 1 && drops <= 1 && total == 1 + drops
            && t.unwind is None
    } else if k == "false_edge"@ {
        normal == 1 && kind_count(s, CompilerEdgeKind::Imaginary) == 1 && total == 2
            && t.unwind is None
    } else if k == "inline_asm"@ {
        total == normal + unwind && t.unwind is Some
    } else {
        false
    }
}

/// The first problem with a terminator and its successors, if any.
pub open spec fn terminator_problem(t: CompilerTerminator) -> Option<Seq<char>> {
    if edges_problem_from(t.successors@, 0) is Some {
        edges_problem_from(t.successors@, 0)
    } else if unwind_problem(t) is Some {
        unwind_problem(t)
    } else if !shape_ok(t) {
        Some("unsupported terminator or inconsistent CFG successor shape"@)
    } else {
        None
    }
}

/// Number of edges of kind `k`.
fn count_kind(s: &Vec<CompilerSuccessor>, k: CompilerEdgeKind) -> (r: usize)
    ensures
        r == kind_count(s@, k),
{
    let mut n: usize = 0;
    let mut i: usize = 0;
    while i < s.len()
        invariant
            i <= s@.len(),
            n == kind_count(s@.take(i as int), k),
            n <= i,
        decreases s.len() - i,
    {
        proof {
            assert(s@.take(i + 1).drop_last() =~= s@.take(i as int));
        }
        if s[i].kind == k {
            n = n + 1;
        }
        i += 1;
    }
    proof {
        assert(s@.take(i as int) =~= s@);
    }
    n
}

/// Checks one terminator against its successor edges: switch values are distinct canonical
/// `u128` decimals on switch edges only, unwind edges agree with the cleanup metadata, and
/// the kind has its required successor shape.
#[verifier::loop_isolation(false)]
pub fn validate_graph_term(term: &CompilerTerminator) -> (r: Result<(), AnalysisError>)
    ensures
        match r {
            Ok(()) => terminator_problem(*term) is None,
            Err(e) => terminator_problem(*term) matches Some(m) && e matches AnalysisError::InvalidInput(
                msg,
            ) && msg@ == m,
        },
{
    let s = &term.successors;
    let mut values: Vec<u128> = Vec::new();
    let mut i: usize = 0;
    while i < s.len()
        invariant
            i <= s@.len(),
            edges_problem_from(s@, 0) == edges_problem_from(s@, i as int),
            forall|j: int| 0 <= j < i ==> edge_problem(s@, j) is None,
            forall|x: u128|
                #[trigger] values@.contains(x) <==> exists|j: int|
                    0 <= j < i && (#[trigger] s@[j]).kind == CompilerEdgeKind::SwitchValue
                        && switch_number(s@[j].switch_value->0) == x,
        decreases s.len() - i,
    {
        let e = &s[i];
        if e.kind == CompilerEdgeKind::SwitchValue {
            let text = match &e.switch_value {
                Some(v) => v,
                None => {
                    return Err(invalid("switch edge requires a valid unsigned 128-bit value"));
                },
            };
            let text_str = text.as_str();
            proof {
                assert(text_str.spec_bytes() == text_bytes(*text));
            }
            let value = match parse_u128(text_str) {
                Some(v) => v,
                None => {
                    return Err(invalid("switch edge requires a valid unsigned 128-bit value"));
                },
            };
            let canonical = crate::decimal::decimal_string(value);
            let mut seen = false;
            let mut k: usize = 0;
            while k < values.len()
                invariant
                    k <= values@.len(),
                    seen <==> exists|m: int| 0 <= m < k && values@[m] == value,
                decreases values.len() - k,
            {
                if values[k] == value {
                    seen = true;
                }
                k += 1;
            }
            proof {
                assert(seen <==> values@.contains(value));
            }
            if !text_is(text_str, canonical.as_str()) || seen {
                return Err(invalid("switch values must be distinct canonical decimal strings"));
            }
            let ghost before = values@;
            values.push(value);
            proof {
                assert forall|x: u128| #[trigger] values@.contains(x) <==> exists|j: int|
                    0 <= j < i + 1 && (#[trigger] s@[j]).kind == CompilerEdgeKind::SwitchValue
                        && switch_number(s@[j].switch_value->0) == x by {
                    if values@.contains(x) {
                        let m = choose|m: int| 0 <= m < values@.len() && values@[m] == x;
                        if m < before.len() {
                            assert(before[m] == x);
                            assert(before.contains(x));
                        } else {
                            assert(s@[i as int].kind == CompilerEdgeKind::SwitchValue);
                        }
                    }
                    if exists|j: int|
                        0 <= j < i + 1 && (#[trigger] s@[j]).kind == CompilerEdgeKind::SwitchValue
                            && switch_number(s@[j].switch_value->0) == x {
                        let j = choose|j: int|
                            0 <= j < i + 1 && (#[trigger] s@[j]).kind == CompilerEdgeKind::SwitchValue
                                && switch_number(s@[j].switch_value->0) == x;
                        if j < i {
                            assert(before.contains(x));
                            let m = choose|m: int| 0 <= m < before.len() && before[m] == x;
                            assert(values@[m] == x);
                        } else {
                            assert(values@[before.len() as int] == value);
                        }
                    }
                }
            }
        } else if e.switch_value.is_some() {
            return Err(invalid("non-switch edge has a switch value"));
        }
        i += 1;
    }
    let normal = count_kind(s, CompilerEdgeKind::Normal) as u128;
    let unwind = count_kind(s, CompilerEdgeKind::Unwind) as u128;
    let drops = count_kind(s, CompilerEdgeKind::CoroutineDrop) as u128;
    let total = s.len() as u128;
    match &term.unwind {
        Some(CompilerUnwind::Cleanup { target }) => {
            let mut found = false;
            let mut j: usize = 0;
            while j < s.len()
                invariant
                    j <= s@.len(),
                    found <==> exists|m: int|
                        0 <= m < j && (#[trigger] s@[m]).kind == CompilerEdgeKind::Unwind && s@[m].target
                            == *target,
                decreases s.len() - j,
            {
                if s[j].kind == CompilerEdgeKind::Unwind && s[j].target == *target {
                    found = true;
                }
                j += 1;
            }
            if unwind != 1 || !found {
                return Err(invalid("cleanup unwind and successor disagree"));
            }
        },
        _ => {
            if unwind != 0 {
                return Err(invalid("unwind successor lacks matching cleanup metadata"));
            }
        },
    }
    let k = term.kind.as_str();
    let valid = if text_is(k, "goto") {
        normal == 1 && total == 1 && term.unwind.is_none()
    } else if text_is(k, "switch_int") {
        count_kind(s, CompilerEdgeKind::Otherwise) == 1 && total == count_kind(
            s,
            CompilerEdgeKind::SwitchValue,
        ) as u128 + 1 && term.unwind.is_none()
    } else if text_is(k, "return") || text_is(k, "unwind_resume") || text_is(k, "unreachable")
        || text_is(k, "coroutine_drop") || text_is(k, "tail_call") {
        total == 0 && term.unwind.is_none()
    } else if text_is(k, "unwind_terminate") {
        total == 0 && match &term.unwind {
            Some(CompilerUnwind::Terminate { .. }) => true,
            _ => false,
        }
    } else if text_is(k, "drop") {
        normal == 1 && drops <= 1 && total == normal + drops + unwind && term.unwind.is_some()
    } else if text_is(k, "call") {
        normal <= 1 && total == normal + unwind && term.unwind.is_some()
    } else if text_is(k, "assert") || text_is(k, "false_unwind") {
        normal == 1 && total == normal + unwind && term.unwind.is_some()
    } else if text_is(k, "yield") {
        count_kind(s, CompilerEdgeKind::Resume) == 1 && drops <= 1 && total == 1 + drops
            && term.unwind.is_none()
    } else if text_is(k, "false_edge") {
        normal == 1 && count_kind(s, CompilerEdgeKind::Imaginary) == 1 && total == 2
            && term.unwind.is_none()
    } else if text_is(k, "inline_asm") {
        total == normal + unwind && term.unwind.is_some()
    } else {
        false
    };
    if !valid {
        return Err(invalid("unsupported terminator or inconsistent CFG successor shape"));
    }
    Ok(())
}

} // verus!
