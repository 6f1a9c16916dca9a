//! Whole-local reaching definitions over one compiler body, not pointer or value analysis:
//! for each read of a local, the assignments that may reach it along runtime control
//! flow, and whether none may.
use crate::compiler::{
    CompilerBlock, CompilerBody, CompilerEdgeKind, CompilerLocal, CompilerLocalEffects,
    CompilerSourceMapping, CompilerSuccessor, CompilerTerminator, CompilerUnknownEffect,
};
use crate::complexity::{at, distinct_blocks, find_position, has_block, lists, sorted_positions};
use crate::control::AnalysisControl;
use crate::envelope::{invalid, stopped_message, AnalysisEnvelope, AnalysisError};
use crate::facts::{
    apply_write, below, effects_tracked, initial, join, justified, leave, lemma_exact,
    lemma_initial_justified, lemma_join_justified, lemma_leave_justified, lemma_stable_covers,
    covers_path, holds_on_entry, lacks_on_entry, meets_on_entry, slot_index, stable_at,
    step_write, Abstract, FlowState,
};
use crate::flow::{
    arrives, edge_write, group_count, group_effects, group_point, group_unknowns, group_write,
    path_end, path_ok, reached, runtime_step, step_target, suspends, terminator_unknowns,
    unknowns_before, writes_before, definition_less, LocalDefinition, MirPoint,
};
use crate::limits::DataflowLimits;
use crate::model::{coverage_view, with_gap, with_gaps, lemma_with_gaps_push, Coverage, UnknownReason};
use crate::text::{text_bytes, text_is};
use vstd::prelude::*;
use vstd::string::StrSliceExecFns;

verus! {

// ---------------------------------------------------------------------------
// The report
// ---------------------------------------------------------------------------

/// One read of a local and what may reach it.
#[derive(Debug, Clone)]
pub struct LocalUse {
    pub local: u32,
    pub point: MirPoint,
    pub reaching: Vec<LocalDefinition>,
    /// An abstract tracking gap on some path, not a Rust undefined-behavior verdict.
    pub may_be_uninitialized: bool,
    pub possibly_changed_by_unknown_memory: bool,
}

/// The distinct unknown memory effects of one program point, in rank order.
#[derive(Debug, Clone)]
pub struct UnknownMemoryEffect {
    pub point: MirPoint,
    pub effects: Vec<CompilerUnknownEffect>,
}

/// Reaching definitions of one body. Claims are made only when `fixed_point` holds.
#[derive(Debug, Clone)]
pub struct ReachingDefinitions {
    pub envelope: AnalysisEnvelope,
    pub body_id: String,
    pub fixed_point: bool,
    pub iterations: u32,
    pub reachable_blocks: Vec<u32>,
    pub definitions: Vec<LocalDefinition>,
    pub uses: Vec<LocalUse>,
    pub unknown_memory_effects: Vec<UnknownMemoryEffect>,
}

// ---------------------------------------------------------------------------
// Messages
// ---------------------------------------------------------------------------

pub open spec fn identity_message() -> Seq<char> {
    "compiler body identity must contain 1..256 bytes"@
}

pub open spec fn size_message() -> Seq<char> {
    "Selected body exceeds the block or local budget"@
}

pub open spec fn bytes_message() -> Seq<char> {
    "Selected compiler body exceeds the 32 MiB input budget"@
}

pub open spec fn empty_message() -> Seq<char> {
    "a MIR body requires an entry block and a return local"@
}

pub open spec fn roots_message() -> Seq<char> {
    "duplicate or missing entry block, return local, or argument local"@
}

pub open spec fn input_facts_message() -> Seq<char> {
    "Selected body exceeds the input fact budget"@
}

/// Whether `m` is the gap recorded when the solver runs out of its iteration or retained
/// fact budget.
pub open spec fn solver_message(m: Seq<char>) -> bool {
    ||| m == "Reaching definitions did not converge within the iteration budget"@
    ||| m == "Transfer state exceeds the abstract-state fact budget"@
    ||| m == "Terminator state exceeds the abstract-state fact budget"@
    ||| m == "Reaching-definition states exceed the retained fact budget"@
    ||| m == "Argument state exceeds the retained fact budget"@
}

/// Whether coverage `after` is `cv0` with some unknown-effect gaps and then the output
/// budget gap recorded.
pub open spec fn output_limited(
    cv0: (crate::model::Status, Seq<crate::model::ReasonCount>, Seq<Seq<char>>),
    after: (crate::model::Status, Seq<crate::model::ReasonCount>, Seq<Seq<char>>),
) -> bool {
    exists|k: int| after == with_gap(
        with_gaps(cv0, #[trigger] unknown_gaps(k)),
        UnknownReason::BudgetExhausted,
        "Reaching-definition output exceeds the fact budget"@,
    )
}

/// Whether coverage `after` is `before` with one solver budget gap recorded.
pub open spec fn solver_limited(
    before: (crate::model::Status, Seq<crate::model::ReasonCount>, Seq<Seq<char>>),
    after: (crate::model::Status, Seq<crate::model::ReasonCount>, Seq<Seq<char>>),
) -> bool {
    exists|m: Seq<char>| #[trigger] solver_message(m) && after == with_gap(before, UnknownReason::BudgetExhausted, m)
}

pub open spec fn order_message() -> Seq<char> {
    "statement indices must match their execution order"@
}

pub open spec fn local_message() -> Seq<char> {
    "local effects reference a missing local"@
}

pub open spec fn return_message() -> Seq<char> {
    "normal-return assignment references a missing local"@
}

pub open spec fn successor_message() -> Seq<char> {
    "successor references a missing block"@
}

pub open spec fn imaginary_message() -> Seq<char> {
    "Imaginary compiler edges are excluded from runtime reaching definitions"@
}

/// `n` records of the imaginary-edge gap.
pub open spec fn imaginary_gaps(n: int) -> Seq<(UnknownReason, Seq<char>)> {
    Seq::new(n as nat, |i: int| (UnknownReason::UnsupportedConstruct, imaginary_message()))
}

/// The largest serialized body, in bytes, that an analysis reads.
pub open spec fn input_byte_budget() -> int {
    33554432int
}

// ---------------------------------------------------------------------------
// Validation
// ---------------------------------------------------------------------------

/// The indices of the locals, in order.
pub open spec fn local_ids(body: CompilerBody) -> Seq<u32> {
    body.locals@.map_values(|c: CompilerLocal| c.index)
}

/// Whether blocks and locals are distinct, block 0 and local 0 exist, and each argument
/// local `1..=argument_count` exists below the local count.
pub open spec fn roots_ok(body: CompilerBody) -> bool {
    &&& distinct_blocks(body.blocks@)
    &&& local_ids(body).no_duplicates()
    &&& has_block(body.blocks@, 0)
    &&& local_ids(body).contains(0)
    &&& body.argument_count < body.locals@.len()
    &&& forall|l: u32| 1 <= l <= body.argument_count ==> #[trigger] local_ids(body).contains(l)
}

/// The state of the input scan: still going (facts counted, imaginary edges met), stopped
/// by a budget (with its message and the imaginary edges met), or refused.
pub enum Scan {
    Go(int, int),
    Limited(Seq<char>, int),
    Invalid(Seq<char>),
}

/// Counting one local reference.
pub open spec fn ref_step(s: Scan, l: u32, lids: Seq<u32>, max: int, msg: Seq<char>) -> Scan {
    match s {
        Scan::Go(f, g) => if f + 1 > max {
            Scan::Limited(input_facts_message(), g)
        } else if !lids.contains(l) {
            Scan::Invalid(msg)
        } else {
            Scan::Go(f + 1, g)
        },
        _ => s,
    }
}

/// Counting a list of local references in order.
pub open spec fn refs_scan(s: Scan, list: Seq<u32>, lids: Seq<u32>, max: int, msg: Seq<char>) -> Scan
    decreases list.len(),
{
    if list.len() == 0 {
        s
    } else {
        ref_step(refs_scan(s, list.drop_last(), lids, max, msg), list.last(), lids, max, msg)
    }
}

/// The locals that effects name, in the order they are counted.
pub open spec fn effect_refs(e: CompilerLocalEffects) -> Seq<u32> {
    e.defs@ + e.uses@ + e.moves@ + e.storage_live@ + e.storage_dead@
}

/// Counting one group of effects: the group, its local references, its unknown effects.
pub open spec fn effects_scan(s: Scan, e: CompilerLocalEffects, lids: Seq<u32>, max: int) -> Scan {
    match s {
        Scan::Go(f, g) => match refs_scan(Scan::Go(f + 1, g), effect_refs(e), lids, max, local_message()) {
            Scan::Go(f2, g2) => if f2 + e.unknown_effects@.len() > max {
                Scan::Limited(input_facts_message(), g2)
            } else {
                Scan::Go(f2 + e.unknown_effects@.len(), g2)
            },
            other => other,
        },
        _ => s,
    }
}

/// Counting the first `k` groups of a block.
pub open spec fn groups_scan(s: Scan, blk: CompilerBlock, k: int, lids: Seq<u32>, max: int) -> Scan
    decreases k,
{
    if k <= 0 {
        s
    } else {
        effects_scan(groups_scan(s, blk, k - 1, lids, max), group_effects(blk, k - 1), lids, max)
    }
}

/// Counting one successor edge.
pub open spec fn edge_step(s: Scan, e: CompilerSuccessor, b: Seq<CompilerBlock>, max: int) -> Scan {
    match s {
        Scan::Go(f, g) => if f + 1 > max {
            Scan::Limited(input_facts_message(), g)
        } else if !has_block(b, e.target) {
            Scan::Invalid(successor_message())
        } else if e.kind == CompilerEdgeKind::Imaginary {
            Scan::Go(f + 1, g + 1)
        } else {
            Scan::Go(f + 1, g)
        },
        _ => s,
    }
}

/// Counting successor edges in order.
pub open spec fn edges_scan(s: Scan, succ: Seq<CompilerSuccessor>, b: Seq<CompilerBlock>, max: int) -> Scan
    decreases succ.len(),
{
    if succ.len() == 0 {
        s
    } else {
        edge_step(edges_scan(s, succ.drop_last(), b, max), succ.last(), b, max)
    }
}

/// Whether each statement's index is its position.
pub open spec fn statements_ordered(blk: CompilerBlock) -> bool {
    forall|k: int| 0 <= k < blk.statements@.len() ==> (#[trigger] blk.statements@[k]).index == k
}

/// Counting one block.
pub open spec fn block_scan(s: Scan, blk: CompilerBlock, b: Seq<CompilerBlock>, lids: Seq<u32>, max: int) -> Scan {
    match s {
        Scan::Go(f, g) => if f + blk.statements@.len() > max {
            Scan::Limited(input_facts_message(), g)
        } else if !statements_ordered(blk) {
            Scan::Invalid(order_message())
        } else {
            let s1 = groups_scan(s, blk, group_count(blk), lids, max);
            let s2 = refs_scan(s1, blk.terminator.normal_return_defs@, lids, max, return_message());
            let s3 = edges_scan(s2, blk.terminator.successors@, b, max);
            match s3 {
                Scan::Go(f3, g3) => if f3 > max {
                    Scan::Limited(input_facts_message(), g3)
                } else {
                    s3
                },
                _ => s3,
            }
        },
        _ => s,
    }
}

/// Counting the first `r` blocks of `order`.
pub open spec fn blocks_scan(
    s: Scan,
    b: Seq<CompilerBlock>,
    order: Seq<usize>,
    r: int,
    lids: Seq<u32>,
    max: int,
) -> Scan
    decreases r,
{
    if r <= 0 {
        s
    } else {
        block_scan(blocks_scan(s, b, order, r - 1, lids, max), b[order[r - 1] as int], b, lids, max)
    }
}

/// Whether `order` lists every block position once, in increasing block index.
pub open spec fn ascending(b: Seq<CompilerBlock>, order: Seq<usize>) -> bool {
    &&& order.len() == b.len()
    &&& forall|k: int| 0 <= k < order.len() ==> (#[trigger] order[k]) < b.len()
    &&& forall|k: int, m: int| 0 <= k < m < order.len() ==> b[order[k] as int].index < b[order[m] as int].index
    &&& forall|p: int| 0 <= p < b.len() ==> #[trigger] lists(order, p)
}

/// The block positions in increasing block index.
pub open spec fn block_order(b: Seq<CompilerBlock>) -> Seq<usize> {
    choose|order: Seq<usize>| ascending(b, order)
}

/// Two orders that both list the blocks in increasing index are the same.
pub proof fn lemma_ascending_unique(b: Seq<CompilerBlock>, o1: Seq<usize>, o2: Seq<usize>)
    requires
        ascending(b, o1),
        ascending(b, o2),
    ensures
        o1 == o2,
{
    assert forall|k: int| 0 <= k < o1.len() implies o1[k] == o2[k] by {
        lemma_ascending_agree(b, o1, o2, k);
    }
    assert(o1 =~= o2);
}

proof fn lemma_ascending_agree(b: Seq<CompilerBlock>, o1: Seq<usize>, o2: Seq<usize>, k: int)
    requires
        ascending(b, o1),
        ascending(b, o2),
        0 <= k < o1.len(),
    ensures
        o1[k] == o2[k],
    decreases k,
{
    assert forall|m: int| 0 <= m < k implies o1[m] == o2[m] by {
        lemma_ascending_agree(b, o1, o2, m);
    }
    if o1[k] != o2[k] {
        if b[o1[k] as int].index < b[o2[k] as int].index {
            assert(lists(o2, o1[k] as int));
            let m = choose|m: int| 0 <= m < o2.len() && o2[m] == o1[k] as int;
            if m < k {
                assert(o1[m] == o2[m]);
            } else if m == k {
            } else {
                assert(b[o2[k] as int].index < b[o2[m] as int].index);
            }
        } else {
            assert(lists(o1, o2[k] as int));
            let m = choose|m: int| 0 <= m < o1.len() && o1[m] == o2[k] as int;
            if m < k {
                assert(o1[m] == o2[m]);
            } else if m == k {
            } else {
                assert(b[o1[k] as int].index < b[o1[m] as int].index);
                if b[o1[k] as int].index == b[o2[k] as int].index {
                    assert(lists(o2, o1[k] as int));
                    let w = choose|w: int| 0 <= w < o2.len() && o2[w] == o1[k] as int;
                    if w < k {
                        assert(o1[w] == o2[w]);
                    } else if w > k {
                        assert(b[o2[k] as int].index < b[o2[w] as int].index);
                    }
                }
            }
        }
    }
}

/// What the checks before any analysis find, in the order they are made.
pub open spec fn input_outcome(body: CompilerBody, limits: DataflowLimits, input_bytes: int) -> Scan {
    let b = body.blocks@;
    if !limits.supported() {
        Scan::Invalid(
            "limits require 1..4096 blocks/locals, 1..200000 facts, 1..1000000 iterations, and 1024..2097152 response bytes"@,
        )
    } else if text_bytes(body.body_id).len() == 0 || text_bytes(body.body_id).len() > 256 {
        Scan::Invalid(identity_message())
    } else if b.len() > limits.max_blocks || body.locals@.len() > limits.max_locals {
        Scan::Limited(size_message(), 0)
    } else if input_bytes > input_byte_budget() {
        Scan::Limited(bytes_message(), 0)
    } else if b.len() == 0 || body.locals@.len() == 0 {
        Scan::Invalid(empty_message())
    } else if !roots_ok(body) {
        Scan::Invalid(roots_message())
    } else {
        blocks_scan(
            Scan::Go(b.len() + body.locals@.len() as int, 0),
            b,
            block_order(b),
            b.len() as int,
            local_ids(body),
            limits.max_facts as int,
        )
    }
}

} // verus!

verus! {

// ---------------------------------------------------------------------------
// Scan lemmas
// ---------------------------------------------------------------------------

/// Once the scan of a list prefix stops going, the rest of the list changes nothing.
proof fn lemma_refs_absorb(s: Scan, list: Seq<u32>, lids: Seq<u32>, max: int, msg: Seq<char>, k: int)
    requires
        0 <= k <= list.len(),
        !(refs_scan(s, list.take(k), lids, max, msg) is Go),
    ensures
        refs_scan(s, list, lids, max, msg) == refs_scan(s, list.take(k), lids, max, msg),
    decreases list.len() - k,
{
    if k < list.len() {
        assert(list.take(k + 1).drop_last() =~= list.take(k));
        lemma_refs_absorb(s, list, lids, max, msg, k + 1);
    } else {
        assert(list.take(k) =~= list);
    }
}

/// The scan of a list prefix, one item longer.
proof fn lemma_refs_next(s: Scan, list: Seq<u32>, lids: Seq<u32>, max: int, msg: Seq<char>, k: int)
    requires
        0 <= k < list.len(),
    ensures
        refs_scan(s, list.take(k + 1), lids, max, msg) == ref_step(
            refs_scan(s, list.take(k), lids, max, msg),
            list[k],
            lids,
            max,
            msg,
        ),
{
    assert(list.take(k + 1).drop_last() =~= list.take(k));
    assert(list.take(k + 1).last() == list[k]);
}

/// Scanning a concatenation scans one part after the other.
proof fn lemma_refs_concat(s: Scan, a: Seq<u32>, b: Seq<u32>, lids: Seq<u32>, max: int, msg: Seq<char>)
    ensures
        refs_scan(s, a + b, lids, max, msg) == refs_scan(refs_scan(s, a, lids, max, msg), b, lids, max, msg),
    decreases b.len(),
{
    if b.len() == 0 {
        assert(a + b =~= a);
    } else {
        lemma_refs_concat(s, a, b.drop_last(), lids, max, msg);
        assert((a + b).drop_last() =~= a + b.drop_last());
        assert((a + b).last() == b.last());
    }
}

/// A scan that has stopped going stays stopped through any list.
proof fn lemma_refs_stays(s: Scan, list: Seq<u32>, lids: Seq<u32>, max: int, msg: Seq<char>)
    requires
        !(s is Go),
    ensures
        refs_scan(s, list, lids, max, msg) == s,
    decreases list.len(),
{
    if list.len() > 0 {
        lemma_refs_stays(s, list.drop_last(), lids, max, msg);
    }
}

proof fn lemma_edges_stays(s: Scan, succ: Seq<CompilerSuccessor>, b: Seq<CompilerBlock>, max: int)
    requires
        !(s is Go),
    ensures
        edges_scan(s, succ, b, max) == s,
    decreases succ.len(),
{
    if succ.len() > 0 {
        lemma_edges_stays(s, succ.drop_last(), b, max);
    }
}

proof fn lemma_edges_absorb(s: Scan, succ: Seq<CompilerSuccessor>, b: Seq<CompilerBlock>, max: int, k: int)
    requires
        0 <= k <= succ.len(),
        !(edges_scan(s, succ.take(k), b, max) is Go),
    ensures
        edges_scan(s, succ, b, max) == edges_scan(s, succ.take(k), b, max),
    decreases succ.len() - k,
{
    if k < succ.len() {
        assert(succ.take(k + 1).drop_last() =~= succ.take(k));
        lemma_edges_absorb(s, succ, b, max, k + 1);
    } else {
        assert(succ.take(k) =~= succ);
    }
}

proof fn lemma_groups_stays(s: Scan, blk: CompilerBlock, k: int, lids: Seq<u32>, max: int)
    requires
        !(s is Go),
    ensures
        groups_scan(s, blk, k, lids, max) == s,
    decreases k,
{
    if k > 0 {
        lemma_groups_stays(s, blk, k - 1, lids, max);
    }
}

proof fn lemma_groups_absorb(s: Scan, blk: CompilerBlock, k: int, n: int, lids: Seq<u32>, max: int)
    requires
        0 <= k <= n,
        !(groups_scan(s, blk, k, lids, max) is Go),
    ensures
        groups_scan(s, blk, n, lids, max) == groups_scan(s, blk, k, lids, max),
    decreases n - k,
{
    if k < n {
        lemma_groups_absorb(s, blk, k + 1, n, lids, max);
    }
}

proof fn lemma_blocks_absorb(
    s: Scan,
    b: Seq<CompilerBlock>,
    order: Seq<usize>,
    r: int,
    n: int,
    lids: Seq<u32>,
    max: int,
)
    requires
        0 <= r <= n,
        !(blocks_scan(s, b, order, r, lids, max) is Go),
    ensures
        blocks_scan(s, b, order, n, lids, max) == blocks_scan(s, b, order, r, lids, max),
    decreases n - r,
{
    if r < n {
        lemma_blocks_absorb(s, b, order, r + 1, n, lids, max);
    }
}

proof fn lemma_imaginary_gaps_push(n: int)
    requires
        n >= 0,
    ensures
        imaginary_gaps(n + 1) == imaginary_gaps(n).push((UnknownReason::UnsupportedConstruct, imaginary_message())),
{
    assert(imaginary_gaps(n + 1) =~= imaginary_gaps(n).push((UnknownReason::UnsupportedConstruct, imaginary_message())));
}

// ---------------------------------------------------------------------------
// The input scan
// ---------------------------------------------------------------------------

/// How counting a list of references ended.
enum Count {
    Go(usize),
    Over,
    Missing,
}

/// Counts a list of local references from `facts` counted facts.
fn count_refs(list: &Vec<u32>, lids: &Vec<u32>, facts: usize, max: usize, Ghost(g): Ghost<int>, Ghost(msg): Ghost<Seq<char>>) -> (r: Count)
    requires
        facts <= max + 1,
        max <= 200_000,
    ensures
        match r {
            Count::Go(f) => {
                &&& refs_scan(Scan::Go(facts as int, g), list@, lids@, max as int, msg) == Scan::Go(f as int, g)
                &&& f <= max + 1
                &&& f == facts + list@.len()
                &&& (list@.len() > 0 ==> f <= max)
                &&& forall|m: int| 0 <= m < list@.len() ==> lids@.contains(#[trigger] list@[m])
            },
            Count::Over => refs_scan(Scan::Go(facts as int, g), list@, lids@, max as int, msg) == Scan::Limited(
                input_facts_message(),
                g,
            ),
            Count::Missing => refs_scan(Scan::Go(facts as int, g), list@, lids@, max as int, msg) == Scan::Invalid(msg),
        },
{
    let ghost s0 = Scan::Go(facts as int, g);
    let mut cur = facts;
    let mut k: usize = 0;
    while k < list.len()
        invariant
            k <= list@.len(),
            cur <= max + 1,
            k > 0 ==> cur <= max,
            cur == facts + k,
            max <= 200_000,
            s0 == Scan::Go(facts as int, g),
            refs_scan(s0, list@.take(k as int), lids@, max as int, msg) == Scan::Go(cur as int, g),
            forall|m: int| 0 <= m < k ==> lids@.contains(#[trigger] list@[m]),
        decreases list.len() - k,
    {
        proof {
            lemma_refs_next(s0, list@, lids@, max as int, msg, k as int);
        }
        if cur + 1 > max {
            proof {
                lemma_refs_absorb(s0, list@, lids@, max as int, msg, k + 1);
            }
            return Count::Over;
        }
        if !holds_id(lids, list[k]) {
            proof {
                lemma_refs_absorb(s0, list@, lids@, max as int, msg, k + 1);
            }
            return Count::Missing;
        }
        cur = cur + 1;
        k += 1;
    }
    proof {
        assert(list@.take(k as int) =~= list@);
    }
    Count::Go(cur)
}

/// Whether `v` holds `x`.
fn holds_id(v: &Vec<u32>, x: u32) -> (r: bool)
    ensures
        r == v@.contains(x),
{
    let mut k: usize = 0;
    while k < v.len()
        invariant
            k <= v@.len(),
            forall|m: int| 0 <= m < k ==> v@[m] != x,
        decreases v.len() - k,
    {
        if v[k] == x {
            return true;
        }
        k += 1;
    }
    false
}

/// Counts one group of effects.
fn count_effects(e: &CompilerLocalEffects, lids: &Vec<u32>, facts: usize, max: usize, Ghost(g): Ghost<int>) -> (r: Count)
    requires
        facts <= max,
        max <= 200_000,
    ensures
        match r {
            Count::Go(f) => {
                &&& effects_scan(Scan::Go(facts as int, g), *e, lids@, max as int) == Scan::Go(f as int, g)
                &&& f <= max
                &&& f >= facts
                &&& effects_tracked(*e, lids@)
            },
            Count::Over => effects_scan(Scan::Go(facts as int, g), *e, lids@, max as int) == Scan::Limited(
                input_facts_message(),
                g,
            ),
            Count::Missing => effects_scan(Scan::Go(facts as int, g), *e, lids@, max as int) == Scan::Invalid(
                local_message(),
            ),
        },
{
    let ghost msg = local_message();
    let ghost s1 = Scan::Go(facts as int + 1, g);
    proof {
        lemma_refs_concat(s1, e.defs@ + e.uses@ + e.moves@ + e.storage_live@, e.storage_dead@, lids@, max as int, msg);
        lemma_refs_concat(s1, e.defs@ + e.uses@ + e.moves@, e.storage_live@, lids@, max as int, msg);
        lemma_refs_concat(s1, e.defs@ + e.uses@, e.moves@, lids@, max as int, msg);
        lemma_refs_concat(s1, e.defs@, e.uses@, lids@, max as int, msg);
    }
    let mut f = facts + 1;
    let ghost prefix = e.defs@;
    match count_refs(&e.defs, lids, f, max, Ghost(g), Ghost(msg)) {
        Count::Go(n) => { f = n; },
        Count::Over => {
            proof {
                lemma_refs_stays(Scan::Limited(input_facts_message(), g), e.uses@, lids@, max as int, msg);
                lemma_refs_stays(Scan::Limited(input_facts_message(), g), e.moves@, lids@, max as int, msg);
                lemma_refs_stays(Scan::Limited(input_facts_message(), g), e.storage_live@, lids@, max as int, msg);
                lemma_refs_stays(Scan::Limited(input_facts_message(), g), e.storage_dead@, lids@, max as int, msg);
            }
            return Count::Over;
        },
        Count::Missing => {
            proof {
                lemma_refs_stays(Scan::Invalid(msg), e.uses@, lids@, max as int, msg);
                lemma_refs_stays(Scan::Invalid(msg), e.moves@, lids@, max as int, msg);
                lemma_refs_stays(Scan::Invalid(msg), e.storage_live@, lids@, max as int, msg);
                lemma_refs_stays(Scan::Invalid(msg), e.storage_dead@, lids@, max as int, msg);
            }
            return Count::Missing;
        },
    }
    match count_refs(&e.uses, lids, f, max, Ghost(g), Ghost(msg)) {
        Count::Go(n) => { f = n; },
        Count::Over => {
            proof {
                lemma_refs_stays(Scan::Limited(input_facts_message(), g), e.moves@, lids@, max as int, msg);
                lemma_refs_stays(Scan::Limited(input_facts_message(), g), e.storage_live@, lids@, max as int, msg);
                lemma_refs_stays(Scan::Limited(input_facts_message(), g), e.storage_dead@, lids@, max as int, msg);
            }
            return Count::Over;
        },
        Count::Missing => {
            proof {
                lemma_refs_stays(Scan::Invalid(msg), e.moves@, lids@, max as int, msg);
                lemma_refs_stays(Scan::Invalid(msg), e.storage_live@, lids@, max as int, msg);
                lemma_refs_stays(Scan::Invalid(msg), e.storage_dead@, lids@, max as int, msg);
            }
            return Count::Missing;
        },
    }
    match count_refs(&e.moves, lids, f, max, Ghost(g), Ghost(msg)) {
        Count::Go(n) => { f = n; },
        Count::Over => {
            proof {
                lemma_refs_stays(Scan::Limited(input_facts_message(), g), e.storage_live@, lids@, max as int, msg);
                lemma_refs_stays(Scan::Limited(input_facts_message(), g), e.storage_dead@, lids@, max as int, msg);
            }
            return Count::Over;
        },
        Count::Missing => {
            proof {
                lemma_refs_stays(Scan::Invalid(msg), e.storage_live@, lids@, max as int, msg);
                lemma_refs_stays(Scan::Invalid(msg), e.storage_dead@, lids@, max as int, msg);
            }
            return Count::Missing;
        },
    }
    match count_refs(&e.storage_live, lids, f, max, Ghost(g), Ghost(msg)) {
        Count::Go(n) => { f = n; },
        Count::Over => {
            proof {
                lemma_refs_stays(Scan::Limited(input_facts_message(), g), e.storage_dead@, lids@, max as int, msg);
            }
            return Count::Over;
        },
        Count::Missing => {
            proof {
                lemma_refs_stays(Scan::Invalid(msg), e.storage_dead@, lids@, max as int, msg);
            }
            return Count::Missing;
        },
    }
    match count_refs(&e.storage_dead, lids, f, max, Ghost(g), Ghost(msg)) {
        Count::Go(n) => { f = n; },
        Count::Over => {
            return Count::Over;
        },
        Count::Missing => {
            return Count::Missing;
        },
    }
    if f > max || e.unknown_effects.len() > max - f {
        return Count::Over;
    }
    Count::Go(f + e.unknown_effects.len())
}

} // verus!

verus! {

/// Whether a block passed every input check: ordered statements, tracked locals only,
/// and successors that exist.
pub open spec fn block_checked(blk: CompilerBlock, b: Seq<CompilerBlock>, lids: Seq<u32>) -> bool {
    &&& statements_ordered(blk)
    &&& forall|k: int| 0 <= k < group_count(blk) ==> effects_tracked(#[trigger] group_effects(blk, k), lids)
    &&& forall|m: int|
        0 <= m < blk.terminator.normal_return_defs@.len() ==> lids.contains(
            #[trigger] blk.terminator.normal_return_defs@[m],
        )
    &&& forall|j: int| 0 <= j < blk.terminator.successors@.len() ==> has_block(b, #[trigger] blk.terminator.successors@[j].target)
}

/// How counting a block ended.
enum BlockCount {
    Go(usize, usize),
    Over(usize),
    Missing(AnalysisError),
    Stopped,
}

proof fn lemma_gaps_concat(cv: (crate::model::Status, Seq<crate::model::ReasonCount>, Seq<Seq<char>>), a: int, b: int)
    requires
        a >= 0,
        b >= 0,
    ensures
        with_gaps(with_gaps(cv, imaginary_gaps(a)), imaginary_gaps(b)) == with_gaps(cv, imaginary_gaps(a + b)),
{
    crate::model::lemma_with_gaps_concat(cv, imaginary_gaps(a), imaginary_gaps(b));
    assert(imaginary_gaps(a) + imaginary_gaps(b) =~= imaginary_gaps(a + b));
}

/// Counts one block, recording a gap for each imaginary edge.
#[verifier::rlimit(30)]
#[verifier::spinoff_prover]
fn count_block(
    env: &mut AnalysisEnvelope,
    blk: &CompilerBlock,
    blocks: &Vec<CompilerBlock>,
    lids: &Vec<u32>,
    facts: usize,
    gaps: usize,
    max: usize,
    control: &AnalysisControl,
) -> (r: BlockCount)
    requires
        facts <= max,
        gaps <= facts,
        max <= 200_000,
    ensures
        final(env).truncated == old(env).truncated,
        final(env).cancelled == old(env).cancelled,
        final(env).deadline_reached == old(env).deadline_reached,
        final(env).algorithm_version == old(env).algorithm_version,
        final(env).assumptions == old(env).assumptions,
        match r {
            BlockCount::Go(f, g) => {
                &&& block_scan(Scan::Go(facts as int, gaps as int), *blk, blocks@, lids@, max as int) == Scan::Go(f as int, g as int)
                &&& f <= max
                &&& gaps <= g <= f
                &&& g - gaps <= f - facts
                &&& block_checked(*blk, blocks@, lids@)
                &&& coverage_view(final(env).coverage) == with_gaps(coverage_view(old(env).coverage), imaginary_gaps(g - gaps))
            },
            BlockCount::Over(g) => {
                &&& block_scan(Scan::Go(facts as int, gaps as int), *blk, blocks@, lids@, max as int) == Scan::Limited(
                    input_facts_message(),
                    g as int,
                )
                &&& gaps <= g
                &&& coverage_view(final(env).coverage) == with_gaps(coverage_view(old(env).coverage), imaginary_gaps(g - gaps))
            },
            BlockCount::Missing(e) => e matches AnalysisError::InvalidInput(msg) && block_scan(
                Scan::Go(facts as int, gaps as int),
                *blk,
                blocks@,
                lids@,
                max as int,
            ) == Scan::Invalid(msg@),
            BlockCount::Stopped => true,
        },
{
    let ghost cv0 = coverage_view(env.coverage);
    let ghost s0 = Scan::Go(facts as int, gaps as int);
    let ghost b = blocks@;
    if control.stopped() {
        return BlockCount::Stopped;
    }
    let n = blk.statements.len();
    if n > max - facts {
        proof {
            assert(env.coverage == old(env).coverage);
            assert(imaginary_gaps(0) =~= Seq::<(UnknownReason, Seq<char>)>::empty());
        }
        return BlockCount::Over(gaps);
    }
    let mut k: usize = 0;
    while k < n
        invariant
            k <= n,
            n == blk.statements@.len(),
            n <= max,
            facts + n <= max,
            max <= 200_000,
            forall|m: int| 0 <= m < k ==> (#[trigger] blk.statements@[m]).index == m,
        decreases n - k,
    {
        if blk.statements[k].index != k as u32 {
            proof {
                assert(!statements_ordered(*blk)) by {
                    assert(blk.statements@[k as int].index != k);
                }
            }
            return BlockCount::Missing(invalid("statement indices must match their execution order"));
        }
        k += 1;
    }
    let mut f = facts;
    let count = n + 1;
    let mut k: usize = 0;
    while k < count
        invariant
            k <= count,
            count == group_count(*blk),
            n == blk.statements@.len(),
            facts <= max,
            facts + n <= max,
            max <= 200_000,
            b == blocks@,
            f <= max,
            f >= facts,
            statements_ordered(*blk),
            s0 == Scan::Go(facts as int, gaps as int),
            groups_scan(s0, *blk, k as int, lids@, max as int) == Scan::Go(f as int, gaps as int),
            forall|m: int| 0 <= m < k ==> effects_tracked(#[trigger] group_effects(*blk, m), lids@),
            env.coverage == old(env).coverage,
            *env == *old(env),
        decreases count - k,
    {
        let e = if k < n {
            &blk.statements[k].locals
        } else {
            &blk.terminator.locals
        };
        proof {
            assert(*e == group_effects(*blk, k as int));
        }
        match count_effects(e, lids, f, max, Ghost(gaps as int)) {
            Count::Go(next) => {
                f = next;
            },
            Count::Over => {
                proof {
                    lemma_groups_absorb(s0, *blk, k + 1, count as int, lids@, max as int);
                    lemma_refs_stays(Scan::Limited(input_facts_message(), gaps as int), blk.terminator.normal_return_defs@, lids@, max as int, return_message());
                    lemma_edges_stays(Scan::Limited(input_facts_message(), gaps as int), blk.terminator.successors@, b, max as int);
                    assert(imaginary_gaps(0) =~= Seq::<(UnknownReason, Seq<char>)>::empty());
                }
                return BlockCount::Over(gaps);
            },
            Count::Missing => {
                proof {
                    lemma_groups_absorb(s0, *blk, k + 1, count as int, lids@, max as int);
                    lemma_refs_stays(Scan::Invalid(local_message()), blk.terminator.normal_return_defs@, lids@, max as int, return_message());
                    lemma_edges_stays(Scan::Invalid(local_message()), blk.terminator.successors@, b, max as int);
                }
                return BlockCount::Missing(invalid("local effects reference a missing local"));
            },
        }
        if control.stopped() {
            return BlockCount::Stopped;
        }
        k += 1;
    }
    let ghost s1 = Scan::Go(f as int, gaps as int);
    match count_refs(&blk.terminator.normal_return_defs, lids, f, max, Ghost(gaps as int), Ghost(return_message())) {
        Count::Go(next) => {
            f = next;
        },
        Count::Over => {
            proof {
                lemma_edges_stays(Scan::Limited(input_facts_message(), gaps as int), blk.terminator.successors@, b, max as int);
                assert(imaginary_gaps(0) =~= Seq::<(UnknownReason, Seq<char>)>::empty());
            }
            return BlockCount::Over(gaps);
        },
        Count::Missing => {
            proof {
                lemma_edges_stays(Scan::Invalid(return_message()), blk.terminator.successors@, b, max as int);
            }
            return BlockCount::Missing(invalid("normal-return assignment references a missing local"));
        },
    }
    if f > max {
        proof {
            lemma_edges_stays(Scan::Limited(input_facts_message(), gaps as int), blk.terminator.successors@, b, max as int);
        }
        // Unreachable: counting a reference never exceeds the budget without reporting it.
        return BlockCount::Over(gaps);
    }
    let ghost s2 = Scan::Go(f as int, gaps as int);
    let succ = &blk.terminator.successors;
    let mut g = gaps;
    let mut j: usize = 0;
    while j < succ.len()
        invariant
            j <= succ@.len(),
            *succ == blk.terminator.successors,
            facts <= f <= max,
            gaps <= g,
            g - gaps <= f - facts,
            gaps <= facts,
            max <= 200_000,
            b == blocks@,
            cv0 == coverage_view(old(env).coverage),
            s0 == Scan::Go(facts as int, gaps as int),
            statements_ordered(*blk),
            facts + blk.statements@.len() <= max,
            refs_scan(
                groups_scan(s0, *blk, group_count(*blk), lids@, max as int),
                blk.terminator.normal_return_defs@,
                lids@,
                max as int,
                return_message(),
            ) == s2,
            edges_scan(s2, succ@.take(j as int), b, max as int) == Scan::Go(f as int, g as int),
            forall|m: int| 0 <= m < j ==> has_block(b, #[trigger] succ@[m].target),
            coverage_view(env.coverage) == with_gaps(cv0, imaginary_gaps(g - gaps)),
            env.truncated == old(env).truncated,
            env.cancelled == old(env).cancelled,
            env.deadline_reached == old(env).deadline_reached,
            env.algorithm_version == old(env).algorithm_version,
            env.assumptions == old(env).assumptions,
        decreases succ.len() - j,
    {
        proof {
            assert(succ@.take(j + 1).drop_last() =~= succ@.take(j as int));
            assert(succ@.take(j + 1).last() == succ@[j as int]);
        }
        let e = &succ[j];
        if f + 1 > max {
            proof {
                lemma_edges_absorb(s2, succ@, b, max as int, j + 1);
            }
            return BlockCount::Over(g);
        }
        match find_position(blocks, e.target) {
            None => {
                proof {
                    lemma_edges_absorb(s2, succ@, b, max as int, j + 1);
                }
                return BlockCount::Missing(invalid("successor references a missing block"));
            },
            Some(_) => {},
        }
        if e.kind == CompilerEdgeKind::Imaginary {
            env.partial(
                UnknownReason::UnsupportedConstruct,
                "Imaginary compiler edges are excluded from runtime reaching definitions",
            );
            proof {
                lemma_imaginary_gaps_push(g - gaps);
                lemma_with_gaps_push(cv0, imaginary_gaps(g - gaps), UnknownReason::UnsupportedConstruct, imaginary_message());
            }
            g = g + 1;
        }
        f = f + 1;
        j += 1;
    }
    proof {
        assert(succ@.take(j as int) =~= succ@);
    }
    BlockCount::Go(f, g)
}

} // verus!

verus! {

/// How counting every block ended.
enum InputCount {
    Fine(usize, usize),
    Over,
    Missing(AnalysisError),
    Stopped,
}

/// Counts the blocks in `order`, from `start` facts, recording imaginary edges.
fn count_input(
    env: &mut AnalysisEnvelope,
    blocks: &Vec<CompilerBlock>,
    order: &Vec<usize>,
    lids: &Vec<u32>,
    start: usize,
    max: usize,
    control: &AnalysisControl,
) -> (r: InputCount)
    requires
        ascending(blocks@, order@),
        blocks@.len() > 0,
        max <= 200_000,
    ensures
        final(env).truncated == old(env).truncated,
        final(env).cancelled == old(env).cancelled,
        final(env).deadline_reached == old(env).deadline_reached,
        final(env).algorithm_version == old(env).algorithm_version,
        final(env).assumptions == old(env).assumptions,
        match r {
            InputCount::Fine(f, g) => {
                &&& blocks_scan(Scan::Go(start as int, 0), blocks@, order@, blocks@.len() as int, lids@, max as int)
                    == Scan::Go(f as int, g as int)
                &&& f <= max
                &&& forall|p: int| 0 <= p < blocks@.len() ==> block_checked(#[trigger] blocks@[p], blocks@, lids@)
                &&& coverage_view(final(env).coverage) == with_gaps(coverage_view(old(env).coverage), imaginary_gaps(g as int))
            },
            InputCount::Over => exists|g: int|
                blocks_scan(Scan::Go(start as int, 0), blocks@, order@, blocks@.len() as int, lids@, max as int)
                    == Scan::Limited(input_facts_message(), g) && coverage_view(final(env).coverage) == with_gaps(
                    coverage_view(old(env).coverage),
                    imaginary_gaps(g),
                ),
            InputCount::Missing(e) => e matches AnalysisError::InvalidInput(msg) && blocks_scan(
                Scan::Go(start as int, 0),
                blocks@,
                order@,
                blocks@.len() as int,
                lids@,
                max as int,
            ) == Scan::Invalid(msg@),
            InputCount::Stopped => true,
        },
{
    let ghost cv0 = coverage_view(env.coverage);
    let ghost s0 = Scan::Go(start as int, 0);
    let ghost b = blocks@;
    let n = blocks.len();
    if start > max {
        proof {
            let blk = b[order@[0] as int];
            assert(blocks_scan(s0, b, order@, 1, lids@, max as int) == block_scan(blocks_scan(s0, b, order@, 0, lids@, max as int), blk, b, lids@, max as int));
            lemma_blocks_absorb(s0, b, order@, 1, n as int, lids@, max as int);
            assert(imaginary_gaps(0) =~= Seq::<(UnknownReason, Seq<char>)>::empty());
        }
        return InputCount::Over;
    }
    let mut f = start;
    let mut g: usize = 0;
    let mut r: usize = 0;
    while r < n
        invariant
            r <= n,
            n == blocks@.len(),
            b == blocks@,
            ascending(b, order@),
            s0 == Scan::Go(start as int, 0),
            cv0 == coverage_view(old(env).coverage),
            f <= max,
            g <= f,
            max <= 200_000,
            blocks_scan(s0, b, order@, r as int, lids@, max as int) == Scan::Go(f as int, g as int),
            forall|k: int| 0 <= k < r ==> block_checked(#[trigger] b[order@[k] as int], b, lids@),
            coverage_view(env.coverage) == with_gaps(cv0, imaginary_gaps(g as int)),
            env.truncated == old(env).truncated,
            env.cancelled == old(env).cancelled,
            env.deadline_reached == old(env).deadline_reached,
            env.algorithm_version == old(env).algorithm_version,
            env.assumptions == old(env).assumptions,
        decreases n - r,
    {
        let p = order[r];
        let ghost before = coverage_view(env.coverage);
        match count_block(env, &blocks[p], blocks, lids, f, g, max, control) {
            BlockCount::Go(f2, g2) => {
                proof {
                    lemma_gaps_concat(cv0, g as int, g2 - g);
                }
                f = f2;
                g = g2;
            },
            BlockCount::Over(g2) => {
                proof {
                    lemma_blocks_absorb(s0, b, order@, r + 1, n as int, lids@, max as int);
                    lemma_gaps_concat(cv0, g as int, g2 - g);
                }
                return InputCount::Over;
            },
            BlockCount::Missing(e) => {
                proof {
                    lemma_blocks_absorb(s0, b, order@, r + 1, n as int, lids@, max as int);
                }
                return InputCount::Missing(e);
            },
            BlockCount::Stopped => {
                return InputCount::Stopped;
            },
        }
        r += 1;
    }
    proof {
        assert forall|p: int| 0 <= p < b.len() implies block_checked(#[trigger] b[p], b, lids@) by {
            assert(lists(order@, p));
            let k = choose|k: int| 0 <= k < order@.len() && order@[k] == p;
            assert(block_checked(b[order@[k] as int], b, lids@));
        }
    }
    InputCount::Fine(f, g)
}

} // verus!

verus! {

// ---------------------------------------------------------------------------
// Blocks as transfers
// ---------------------------------------------------------------------------

/// The state after the first `k` groups of a block, from `a` on entry to it.
pub open spec fn after_groups(lids: Seq<u32>, blk: CompilerBlock, k: int, a: Abstract) -> Abstract {
    Abstract {
        slots: Seq::new(a.slots.len(), |i: int| apply_write(writes_before(blk, k, lids[i]), a.slots[i])),
        unknown: a.unknown + unknowns_before(blk, k),
    }
}

/// The block with `k` groups applied, then group `k`, is the block with `k + 1` applied.
proof fn lemma_after_next(lids: Seq<u32>, blk: CompilerBlock, k: int, a: Abstract, e: CompilerLocalEffects, unknowns: Seq<CompilerUnknownEffect>, next: Abstract)
    requires
        k >= 0,
        e == group_effects(blk, k),
        unknowns == group_unknowns(blk, k),
        a.slots.len() == lids.len(),
        next.slots == Seq::new(
            lids.len(),
            |i: int| apply_write(step_write(e, group_point(blk, k), lids[i]), after_groups(lids, blk, k, a).slots[i]),
        ),
        next.unknown == after_groups(lids, blk, k, a).unknown + unknowns.to_set(),
    ensures
        next == after_groups(lids, blk, k + 1, a),
{
    let want = after_groups(lids, blk, k + 1, a);
    assert forall|i: int| 0 <= i < lids.len() implies #[trigger] next.slots[i] == want.slots[i] by {
        crate::facts::lemma_apply_twice(writes_before(blk, k, lids[i]), step_write(e, group_point(blk, k), lids[i]), a.slots[i]);
        assert(step_write(e, group_point(blk, k), lids[i]) == group_write(blk, k, lids[i]));
    }
    assert(next.slots =~= want.slots);
    assert(next.unknown =~= want.unknown);
}

/// Leaving after all groups, with the normal-return assignments of the edge, is `leave`.
proof fn lemma_after_leave(body: CompilerBody, lids: Seq<u32>, q: int, j: int, a: Abstract, out: Abstract)
    requires
        0 <= q < body.blocks@.len(),
        0 <= j < body.blocks@[q].terminator.successors@.len(),
        a.slots.len() == lids.len(),
        out.slots == Seq::new(
            lids.len(),
            |i: int|
                apply_write(
                    if body.blocks@[q].terminator.successors@[j].kind == CompilerEdgeKind::Normal
                        && body.blocks@[q].terminator.normal_return_defs@.contains(lids[i]) {
                        Some(
                            Some(
                                MirPoint::NormalReturn {
                                    block: body.blocks@[q].index,
                                    target: body.blocks@[q].terminator.successors@[j].target,
                                },
                            ),
                        )
                    } else {
                        None
                    },
                    after_groups(lids, body.blocks@[q], group_count(body.blocks@[q]), a).slots[i],
                ),
        ),
        out.unknown == after_groups(lids, body.blocks@[q], group_count(body.blocks@[q]), a).unknown,
    ensures
        out == leave(body, lids, q, j, a),
{
    let blk = body.blocks@[q];
    let want = leave(body, lids, q, j, a);
    assert forall|i: int| 0 <= i < lids.len() implies #[trigger] out.slots[i] == want.slots[i] by {
        let nr = if blk.terminator.successors@[j].kind == CompilerEdgeKind::Normal
            && blk.terminator.normal_return_defs@.contains(lids[i]) {
            Some(Some(MirPoint::NormalReturn { block: blk.index, target: blk.terminator.successors@[j].target }))
        } else {
            None
        };
        crate::facts::lemma_apply_twice(writes_before(blk, group_count(blk), lids[i]), nr, a.slots[i]);
    }
    assert(out.slots =~= want.slots);
}

/// The unknown effects of a terminator, with the external-state effect added when it
/// suspends.
fn terminator_unknown_list(term: &CompilerTerminator) -> (r: Vec<CompilerUnknownEffect>)
    ensures
        r@ == terminator_unknowns(*term),
{
    let mut suspended = text_is(term.kind.as_str(), "yield");
    let mut j: usize = 0;
    while j < term.successors.len()
        invariant
            j <= term.successors@.len(),
            suspended == (term.kind@ == "yield"@ || exists|m: int|
                0 <= m < j && ((#[trigger] term.successors@[m]).kind == CompilerEdgeKind::Resume
                    || term.successors@[m].kind == CompilerEdgeKind::CoroutineDrop)),
        decreases term.successors.len() - j,
    {
        let kind = term.successors[j].kind;
        if kind == CompilerEdgeKind::Resume || kind == CompilerEdgeKind::CoroutineDrop {
            suspended = true;
        }
        j += 1;
    }
    let mut out: Vec<CompilerUnknownEffect> = Vec::new();
    let mut present = false;
    let mut k: usize = 0;
    while k < term.locals.unknown_effects.len()
        invariant
            k <= term.locals.unknown_effects@.len(),
            out@ == term.locals.unknown_effects@.take(k as int),
            present == out@.contains(CompilerUnknownEffect::ExternalState),
        decreases term.locals.unknown_effects.len() - k,
    {
        let e = term.locals.unknown_effects[k];
        let ghost before = out@;
        out.push(e);
        if e == CompilerUnknownEffect::ExternalState {
            present = true;
        }
        proof {
            assert(out@ =~= term.locals.unknown_effects@.take(k + 1));
            if e != CompilerUnknownEffect::ExternalState && out@.contains(CompilerUnknownEffect::ExternalState) {
                let w = choose|w: int| 0 <= w < out@.len() && #[trigger] out@[w] == CompilerUnknownEffect::ExternalState;
                assert(w < before.len());
                assert(before[w] == CompilerUnknownEffect::ExternalState);
            }
            if e == CompilerUnknownEffect::ExternalState {
                assert(out@[before.len() as int] == e);
            }
            if present && e != CompilerUnknownEffect::ExternalState {
                let w = choose|w: int| 0 <= w < before.len() && #[trigger] before[w] == CompilerUnknownEffect::ExternalState;
                assert(out@[w] == CompilerUnknownEffect::ExternalState);
            }
        }
        k += 1;
    }
    proof {
        assert(term.locals.unknown_effects@.take(k as int) =~= term.locals.unknown_effects@);
        assert(suspended == suspends(*term));
    }
    if suspended && !present {
        out.push(CompilerUnknownEffect::ExternalState);
    }
    out
}

/// Rank of an edge kind in the order a worklist step visits them.
pub open spec fn kind_rank(kind: CompilerEdgeKind) -> int {
    match kind {
        CompilerEdgeKind::Normal => 0,
        CompilerEdgeKind::SwitchValue => 1,
        CompilerEdgeKind::Otherwise => 2,
        CompilerEdgeKind::Unwind => 3,
        CompilerEdgeKind::Resume => 4,
        CompilerEdgeKind::CoroutineDrop => 5,
        CompilerEdgeKind::Imaginary => 6,
    }
}

/// Whether edge `a` comes strictly before edge `b`: by target, then kind, then switch value
/// (absent first, then in byte order).
pub open spec fn edge_precedes(a: CompilerSuccessor, b: CompilerSuccessor) -> bool {
    if a.target != b.target {
        a.target < b.target
    } else if kind_rank(a.kind) != kind_rank(b.kind) {
        kind_rank(a.kind) < kind_rank(b.kind)
    } else {
        match (a.switch_value, b.switch_value) {
            (None, None) => false,
            (None, Some(_)) => true,
            (Some(_), None) => false,
            (Some(x), Some(y)) => crate::text::lex_lt(crate::text::text_bytes(x), crate::text::text_bytes(y)),
        }
    }
}

/// The order in which a worklist step visits edge kinds.
fn kind_order(kind: CompilerEdgeKind) -> (r: u8)
    ensures
        r == kind_rank(kind),
{
    match kind {
        CompilerEdgeKind::Normal => 0,
        CompilerEdgeKind::SwitchValue => 1,
        CompilerEdgeKind::Otherwise => 2,
        CompilerEdgeKind::Unwind => 3,
        CompilerEdgeKind::Resume => 4,
        CompilerEdgeKind::CoroutineDrop => 5,
        CompilerEdgeKind::Imaginary => 6,
    }
}

/// Whether edge `a` comes strictly before edge `b`: by target, then kind, then switch value
/// (absent first, then in byte order).
fn edge_before(a: &CompilerSuccessor, b: &CompilerSuccessor) -> (r: bool)
    ensures
        r == edge_precedes(*a, *b),
{
    if a.target != b.target {
        return a.target < b.target;
    }
    let ka = kind_order(a.kind);
    let kb = kind_order(b.kind);
    if ka != kb {
        return ka < kb;
    }
    match (&a.switch_value, &b.switch_value) {
        (None, None) => false,
        (None, Some(_)) => true,
        (Some(_), None) => false,
        (Some(x), Some(y)) => crate::text::bytes_lt(crate::text::bytes_of(x), crate::text::bytes_of(y)),
    }
}

/// The successor positions in the order a worklist step visits them; each position once.
fn edge_order(succ: &Vec<CompilerSuccessor>) -> (r: Vec<usize>)
    ensures
        r@.len() == succ@.len(),
        forall|k: int| 0 <= k < r@.len() ==> (#[trigger] r@[k]) < succ@.len(),
        forall|j: int| 0 <= j < succ@.len() ==> #[trigger] lists(r@, j),
{
    let mut order: Vec<usize> = Vec::new();
    let mut j: usize = 0;
    while j < succ.len()
        invariant
            j <= succ@.len(),
            order@.len() == j,
            forall|k: int| 0 <= k < order@.len() ==> (#[trigger] order@[k]) < j,
            forall|q: int| 0 <= q < j ==> #[trigger] lists(order@, q),
        decreases succ.len() - j,
    {
        let mut at_: usize = 0;
        while at_ < order.len() && !edge_before(&succ[j], &succ[order[at_]])
            invariant
                at_ <= order@.len(),
                j < succ@.len(),
                forall|k: int| 0 <= k < order@.len() ==> (#[trigger] order@[k]) < j,
            decreases order.len() - at_,
        {
            at_ += 1;
        }
        let ghost before = order@;
        order.insert(at_, j);
        proof {
            assert(order@ =~= before.subrange(0, at_ as int).push(j).add(before.subrange(at_ as int, before.len() as int)));
            assert forall|k: int| 0 <= k < order@.len() implies (#[trigger] order@[k]) < j + 1 by {
                if k < at_ {
                    assert(order@[k] == before[k]);
                } else if k > at_ {
                    assert(order@[k] == before[k - 1]);
                }
            }
            assert forall|q: int| 0 <= q < j + 1 implies #[trigger] lists(order@, q) by {
                if q == j {
                    assert(order@[at_ as int] == j);
                } else {
                    assert(lists(before, q));
                    let k = choose|k: int| 0 <= k < before.len() && #[trigger] before[k] == q;
                    if k < at_ {
                        assert(order@[k] == q);
                    } else {
                        assert(order@[k + 1] == q);
                    }
                }
            }
        }
        j += 1;
    }
    order
}

/// The block position of a block index, when the blocks are distinct.
proof fn lemma_at_unique(b: Seq<CompilerBlock>, t: int, x: u32)
    requires
        distinct_blocks(b),
        0 <= t < b.len(),
        b[t].index == x,
    ensures
        at(b, x) == t,
{
    assert(has_block(b, x));
    let w = at(b, x);
    assert(0 <= w < b.len() && b[w].index == x);
    if w != t {
        assert(b[w].index != b[t].index);
    }
}

} // verus!

verus! {

// ---------------------------------------------------------------------------
// The fixed point
// ---------------------------------------------------------------------------

/// How applying a block's groups ended.
enum Run {
    Fine,
    StatementOver,
    TerminatorOver,
    Stopped,
}

/// Whether `t` is the run of a block's groups from `a`: state `j` holds the first `j` groups
/// applied, and every state after the first and before the last is within `max` facts.
pub open spec fn budget_run(t: Seq<FlowState>, lids: Seq<u32>, blk: CompilerBlock, a: Abstract, max: int) -> bool {
    &&& t.len() >= 1
    &&& forall|j: int| 0 <= j < t.len() ==> (#[trigger] t[j]).wf(lids.len() as int)
        && t[j].abs() == after_groups(lids, blk, j, a)
    &&& forall|j: int| 1 <= j < t.len() - 1 ==> (#[trigger] t[j]).facts() <= max
}

/// Applies each group of a block to `state`, checking the fact budget after each one.
fn run_groups(state: &mut FlowState, blk: &CompilerBlock, lids: &Vec<u32>, max: u64, control: &AnalysisControl) -> (r: Run)
    requires
        old(state).wf(lids@.len() as int),
        lids@.no_duplicates(),
        statements_ordered(*blk),
        forall|k: int| 0 <= k < group_count(*blk) ==> effects_tracked(#[trigger] group_effects(*blk, k), lids@),
        max < u64::MAX,
    ensures
        r is Fine ==> final(state).wf(lids@.len() as int) && final(state).abs() == after_groups(
            lids@,
            *blk,
            group_count(*blk),
            old(state).abs(),
        ),
        r is Fine ==> exists|t: Seq<FlowState>|
            #[trigger] budget_run(t, lids@, *blk, old(state).abs(), max as int)
                && t.len() == group_count(*blk) + 1 && t.last() == *final(state) && t.last().facts() <= max,
        r is StatementOver ==> exists|t: Seq<FlowState>|
            #[trigger] budget_run(t, lids@, *blk, old(state).abs(), max as int)
                && 2 <= t.len() <= blk.statements@.len() + 1 && t.last().facts() > max,
        r is TerminatorOver ==> exists|t: Seq<FlowState>|
            #[trigger] budget_run(t, lids@, *blk, old(state).abs(), max as int)
                && t.len() == blk.statements@.len() + 2 && t.last().facts() > max,
{
    let ghost a = state.abs();
    let ghost nl = lids@.len() as int;
    proof {
        assert(after_groups(lids@, *blk, 0, a).slots =~= a.slots);
        assert(after_groups(lids@, *blk, 0, a).unknown =~= a.unknown);
    }
    let n = blk.statements.len();
    let mut k: usize = 0;
    let ghost mut t: Seq<FlowState> = seq![*state];
    while k < n
        invariant
            k <= n,
            n == blk.statements@.len(),
            state.wf(nl),
            nl == lids@.len(),
            a.slots.len() == nl,
            a == old(state).abs(),
            lids@.no_duplicates(),
            statements_ordered(*blk),
            forall|m: int| 0 <= m < group_count(*blk) ==> effects_tracked(#[trigger] group_effects(*blk, m), lids@),
            max < u64::MAX,
            state.abs() == after_groups(lids@, *blk, k as int, a),
            budget_run(t, lids@, *blk, a, max as int),
            t.len() == k + 1,
            t.last() == *state,
            k > 0 ==> t.last().facts() <= max,
        decreases n - k,
    {
        if control.stopped() {
            return Run::Stopped;
        }
        let stmt = &blk.statements[k];
        let pt = MirPoint::Statement { block: blk.index, index: stmt.index };
        proof {
            assert(stmt.locals == group_effects(*blk, k as int));
            assert(pt == group_point(*blk, k as int));
            assert(effects_tracked(group_effects(*blk, k as int), lids@));
        }
        let ghost before = state.abs();
        state.transfer(lids, &stmt.locals, &stmt.locals.unknown_effects, pt);
        proof {
            lemma_after_next(lids@, *blk, k as int, a, stmt.locals, stmt.locals.unknown_effects@, state.abs());
            let prev = t;
            t = t.push(*state);
            assert forall|j: int| 0 <= j < t.len() implies (#[trigger] t[j]).wf(lids@.len() as int)
                && t[j].abs() == after_groups(lids@, *blk, j, a) by {
                if j < prev.len() {
                    assert(t[j] == prev[j]);
                }
            }
            assert forall|j: int| 1 <= j < t.len() - 1 implies (#[trigger] t[j]).facts() <= max by {
                assert(t[j] == prev[j]);
                if j == prev.len() - 1 {
                    assert(prev.last() == prev[j]);
                }
            }
            assert(budget_run(t, lids@, *blk, a, max as int));
        }
        if state.facts_capped(max) > max {
            return Run::StatementOver;
        }
        k += 1;
    }
    let unknowns = terminator_unknown_list(&blk.terminator);
    let pt = MirPoint::Terminator { block: blk.index };
    proof {
        assert(blk.terminator.locals == group_effects(*blk, n as int));
        assert(pt == group_point(*blk, n as int));
        assert(effects_tracked(group_effects(*blk, n as int), lids@));
    }
    state.transfer(lids, &blk.terminator.locals, &unknowns, pt);
    proof {
        lemma_after_next(lids@, *blk, n as int, a, blk.terminator.locals, unknowns@, state.abs());
        let prev = t;
        t = t.push(*state);
        assert forall|j: int| 0 <= j < t.len() implies (#[trigger] t[j]).wf(lids@.len() as int)
            && t[j].abs() == after_groups(lids@, *blk, j, a) by {
            if j < prev.len() {
                assert(t[j] == prev[j]);
            }
        }
        assert forall|j: int| 1 <= j < t.len() - 1 implies (#[trigger] t[j]).facts() <= max by {
            assert(t[j] == prev[j]);
            if j == prev.len() - 1 {
                assert(prev.last() == prev[j]);
            }
        }
        assert(budget_run(t, lids@, *blk, a, max as int));
    }
    if state.facts_capped(max) > max {
        return Run::TerminatorOver;
    }
    Run::Fine
}

/// The abstract states of a list of optional states.
pub open spec fn views(s: Seq<Option<FlowState>>) -> Seq<Option<Abstract>> {
    Seq::new(
        s.len(),
        |p: int|
            match s[p] {
                Some(x) => Some(x.abs()),
                None => None,
            },
    )
}

/// Whether every state of `x` is present and no higher in `y`.
pub open spec fn grows(x: Seq<Option<Abstract>>, y: Seq<Option<Abstract>>) -> bool {
    &&& x.len() == y.len()
    &&& forall|q: int| 0 <= q < x.len() && (#[trigger] x[q]) is Some ==> y[q] is Some && below(x[q]->Some_0, y[q]->Some_0)
}

/// Stability at a block whose own state is unchanged survives growth of the others.
proof fn lemma_stable_grows(body: CompilerBody, lids: Seq<u32>, x: Seq<Option<Abstract>>, y: Seq<Option<Abstract>>, q: int)
    requires
        stable_at(body, lids, x, q),
        grows(x, y),
        0 <= q < x.len(),
        x[q] == y[q],
    ensures
        stable_at(body, lids, y, q),
{
    if y[q] is Some {
        assert forall|j: int| #[trigger] runtime_step(body.blocks@, q, j) implies {
            let t = step_target(body.blocks@, q, j);
            &&& 0 <= t < y.len()
            &&& y[t] is Some
            &&& below(leave(body, lids, q, j, y[q]->Some_0), y[t]->Some_0)
        } by {
            let t = step_target(body.blocks@, q, j);
            assert(x[t] is Some);
            crate::facts::lemma_below_trans(leave(body, lids, q, j, x[q]->Some_0), x[t]->Some_0, y[t]->Some_0);
        }
    }
}

/// Growth is transitive.
proof fn lemma_grows_trans(x: Seq<Option<Abstract>>, y: Seq<Option<Abstract>>, z: Seq<Option<Abstract>>)
    requires
        grows(x, y),
        grows(y, z),
    ensures
        grows(x, z),
{
    assert forall|q: int| 0 <= q < x.len() && (#[trigger] x[q]) is Some implies z[q] is Some && below(x[q]->Some_0, z[q]->Some_0) by {
        crate::facts::lemma_below_trans(x[q]->Some_0, y[q]->Some_0, z[q]->Some_0);
    }
}

/// Everything grows from itself.
proof fn lemma_grows_refl(x: Seq<Option<Abstract>>)
    ensures
        grows(x, x),
{
}

} // verus!

verus! {

/// Whether the entry states are well formed, each on a reached block and justified there,
/// and the entry block's state lies above the initial state.
pub open spec fn ready(body: CompilerBody, lids: Seq<u32>, entries: Seq<Option<FlowState>>, entry: int) -> bool {
    &&& entries.len() == body.blocks@.len()
    &&& forall|p: int|
        0 <= p < entries.len() && (#[trigger] entries[p]) is Some ==> {
            &&& (entries[p]->Some_0).wf(lids.len() as int)
            &&& reached(body, p)
            &&& justified(body, lids, p, (entries[p]->Some_0).abs())
        }
    &&& 0 <= entry < entries.len()
    &&& entries[entry] is Some
    &&& below(initial(body, lids), (entries[entry]->Some_0).abs())
}

/// Whether every block off the worklist, but `except`, is stable, and every block on it
/// has a state.
pub open spec fn settled(body: CompilerBody, lids: Seq<u32>, entries: Seq<Option<FlowState>>, work: Seq<bool>, except: int) -> bool {
    &&& work.len() == entries.len()
    &&& forall|q: int| 0 <= q < work.len() && q != except && !(#[trigger] work[q]) ==> stable_at(body, lids, views(entries), q)
    &&& forall|q: int| 0 <= q < work.len() && #[trigger] work[q] ==> entries[q] is Some
}

/// The facts that the input checks establish and the fixed point relies on.
pub open spec fn checked_body(body: CompilerBody, lids: Seq<u32>) -> bool {
    &&& roots_ok(body)
    &&& lids == local_ids(body)
    &&& forall|p: int| 0 <= p < body.blocks@.len() ==> block_checked(#[trigger] body.blocks@[p], body.blocks@, lids)
}

/// Records that a budget ran out.
fn limit(report: &mut ReachingDefinitions, message: &str)
    ensures
        final(report).envelope.truncated,
        final(report).body_id == old(report).body_id,
        final(report).iterations == old(report).iterations,
        final(report).fixed_point == old(report).fixed_point,
        final(report).envelope.algorithm_version == old(report).envelope.algorithm_version,
        final(report).envelope.assumptions == old(report).envelope.assumptions,
        final(report).reachable_blocks@ == old(report).reachable_blocks@,
        final(report).definitions@ == old(report).definitions@,
        final(report).uses@ == old(report).uses@,
        final(report).unknown_memory_effects@ == old(report).unknown_memory_effects@,
        coverage_view(final(report).envelope.coverage) == with_gap(
            coverage_view(old(report).envelope.coverage),
            UnknownReason::BudgetExhausted,
            message@,
        ),
        final(report).envelope.cancelled == old(report).envelope.cancelled,
        final(report).envelope.deadline_reached == old(report).envelope.deadline_reached,
{
    report.envelope.truncated = true;
    report.envelope.partial(UnknownReason::BudgetExhausted, message);
}

/// Records an early stop.
fn halt(report: &mut ReachingDefinitions, control: &AnalysisControl)
    ensures
        final(report).envelope.truncated,
        final(report).body_id == old(report).body_id,
        final(report).iterations == old(report).iterations,
        final(report).fixed_point == old(report).fixed_point,
        final(report).envelope.algorithm_version == old(report).envelope.algorithm_version,
        final(report).envelope.assumptions == old(report).envelope.assumptions,
        final(report).reachable_blocks@ == old(report).reachable_blocks@,
        final(report).definitions@ == old(report).definitions@,
        final(report).uses@ == old(report).uses@,
        final(report).unknown_memory_effects@ == old(report).unknown_memory_effects@,
        crate::model::texts(final(report).envelope.coverage.limitations@).contains(stopped_message()),
        halted(*final(report)),
{
    let ghost before = coverage_view(report.envelope.coverage);
    report.envelope.stop(control);
    proof {
        crate::model::lemma_gap_recorded(before, UnknownReason::BudgetExhausted, stopped_message());
    }
}

/// Visits the block at position `p`, just taken off the worklist: applies its groups and
/// joins what leaves it into each runtime successor, putting each changed successor back
/// on the worklist. Returns `false` when a budget ran out or the control asked to stop.
#[verifier::rlimit(60)]
#[verifier::spinoff_prover]
fn visit(
    report: &mut ReachingDefinitions,
    body: &CompilerBody,
    lids: &Vec<u32>,
    entries: &mut Vec<Option<FlowState>>,
    work: &mut Vec<bool>,
    retained: &mut u64,
    p: usize,
    entry: usize,
    max: u64,
    control: &AnalysisControl,
) -> (r: bool)
    requires
        checked_body(*body, lids@),
        ready(*body, lids@, old(entries)@, entry as int),
        settled(*body, lids@, old(entries)@, old(work)@, p as int),
        p < old(entries)@.len(),
        old(entries)@[p as int] is Some,
        !old(work)@[p as int],
        *old(retained) <= max,
        max <= 200_000,
    ensures
        final(report).body_id == old(report).body_id,
        final(report).iterations == old(report).iterations,
        final(report).fixed_point == old(report).fixed_point,
        final(report).envelope.algorithm_version == old(report).envelope.algorithm_version,
        final(report).envelope.assumptions == old(report).envelope.assumptions,
        final(report).reachable_blocks@ == old(report).reachable_blocks@,
        final(report).definitions@ == old(report).definitions@,
        final(report).uses@ == old(report).uses@,
        final(report).unknown_memory_effects@ == old(report).unknown_memory_effects@,
        r ==> {
            &&& ready(*body, lids@, final(entries)@, entry as int)
            &&& settled(*body, lids@, final(entries)@, final(work)@, -1)
            &&& *final(retained) <= max
            &&& final(report).envelope == old(report).envelope
        },
        !r ==> final(report).envelope.truncated,
        !r ==> halted(*final(report)) || solver_limited(coverage_view(old(report).envelope.coverage), coverage_view(final(report).envelope.coverage)),
{
    let ghost b = body.blocks@;
    let ghost nl = lids@.len() as int;
    let ghost start_views = views(entries@);
    let blocks = &body.blocks;
    let blk = &blocks[p];
    let mut state = match &entries[p] {
        Some(s) => s.copy(),
        None => {
            return false;
        },
    };
    let ghost sa = state.abs();
    proof {
        assert(block_checked(b[p as int], b, lids@));
        assert(local_ids(*body).no_duplicates());
    }
    match run_groups(&mut state, blk, lids, max, control) {
        Run::Fine => {},
        Run::StatementOver => {
            limit(report, "Transfer state exceeds the abstract-state fact budget");
            proof {
                assert(solver_message("Transfer state exceeds the abstract-state fact budget"@));
            }
            return false;
        },
        Run::TerminatorOver => {
            limit(report, "Terminator state exceeds the abstract-state fact budget");
            proof {
                assert(solver_message("Terminator state exceeds the abstract-state fact budget"@));
            }
            return false;
        },
        Run::Stopped => {
            halt(report, control);
            return false;
        },
    }
    let succ = &blk.terminator.successors;
    let es = edge_order(succ);
    let mut m: usize = 0;
    while m < es.len()
        invariant
            m <= es@.len(),
            es@.len() == succ@.len(),
            forall|k: int| 0 <= k < es@.len() ==> (#[trigger] es@[k]) < succ@.len(),
            forall|j: int| 0 <= j < succ@.len() ==> #[trigger] lists(es@, j),
            *succ == b[p as int].terminator.successors,
            *blk == b[p as int],
            b == body.blocks@,
            *blocks == body.blocks,
            nl == lids@.len(),
            p < b.len(),
            checked_body(*body, lids@),
            max <= 200_000,
            *retained <= max,
            state.wf(nl),
            sa.slots.len() == nl,
            state.abs() == after_groups(lids@, *blk, group_count(*blk), sa),
            ready(*body, lids@, entries@, entry as int),
            settled(*body, lids@, entries@, work@, p as int),
            work@[p as int] || views(entries@)[p as int] == Some(sa),
            grows(start_views, views(entries@)),
            start_views[p as int] == Some(sa),
            reached(*body, p as int),
            justified(*body, lids@, p as int, sa),
            forall|k: int|
                0 <= k < m && #[trigger] runtime_step(b, p as int, es@[k] as int) ==> {
                    let t = step_target(b, p as int, es@[k] as int);
                    &&& 0 <= t < entries@.len()
                    &&& entries@[t] is Some
                    &&& below(leave(*body, lids@, p as int, es@[k] as int, sa), (entries@[t]->Some_0).abs())
                },
            report.body_id == old(report).body_id,
            report.iterations == old(report).iterations,
            report.fixed_point == old(report).fixed_point,
            report.envelope == old(report).envelope,
            report.reachable_blocks@ == old(report).reachable_blocks@,
            report.definitions@ == old(report).definitions@,
            report.uses@ == old(report).uses@,
            report.unknown_memory_effects@ == old(report).unknown_memory_effects@,
        decreases es.len() - m,
    {
        let j = es[m];
        let edge = &succ[j];
        if edge.kind == CompilerEdgeKind::Imaginary {
            m += 1;
            continue;
        }
        if control.stopped() {
            halt(report, control);
            return false;
        }
        let ghost before_entries = entries@;
        let ghost before_views = views(entries@);
        let outgoing = state.leave_along(lids, blk, j);
        proof {
            lemma_after_leave(*body, lids@, p as int, j as int, sa, outgoing.abs());
            assert(runtime_step(b, p as int, j as int));
            assert(has_block(b, b[p as int].terminator.successors@[j as int].target));
        }
        let t = match find_position(blocks, edge.target) {
            Some(t) => t,
            None => {
                return false;
            },
        };
        proof {
            lemma_at_unique(b, t as int, edge.target);
            assert(t == step_target(b, p as int, j as int));
            // What leaves `p` along `j` is justified at `t`, and `t` is reached.
            let w = choose|path: Seq<(int, int)>| #[trigger] arrives(b, path, p as int);
            lemma_leave_justified(*body, lids@, p as int, j as int, sa, w);
            let ext = w.push((p as int, j as int));
            assert(ext.drop_last() =~= w);
            assert(arrives(b, ext, t as int));
        }
        let previous_facts: u64 = match &entries[t] {
            Some(prev) => prev.facts_capped(max),
            None => 0,
        };
        let next = match &entries[t] {
            Some(prev) => {
                let mut merged = prev.copy();
                match merged.join_from(&outgoing, lids.len(), control) {
                    None => {
                        halt(report, control);
                        return false;
                    },
                    Some(false) => {
                        proof {
                            assert(below(outgoing.abs(), prev.abs()));
                        }
                        m += 1;
                        continue;
                    },
                    Some(true) => {
                        proof {
                            lemma_join_justified(*body, lids@, t as int, prev.abs(), outgoing.abs());
                            crate::facts::lemma_join_above(prev.abs(), outgoing.abs());
                        }
                        merged
                    },
                }
            },
            None => outgoing,
        };
        let next_facts = next.facts_capped(max);
        let total = (*retained - if previous_facts <= *retained { previous_facts } else { *retained }) + next_facts;
        if total > max {
            limit(report, "Reaching-definition states exceed the retained fact budget");
            proof {
                assert(solver_message("Reaching-definition states exceed the retained fact budget"@));
            }
            return false;
        }
        *retained = total;
        let ghost na = next.abs();
        proof {
            assert(below(before_views[t as int]->Some_0, na) || before_views[t as int] is None);
            assert(below(leave(*body, lids@, p as int, j as int, sa), na));
        }
        entries.set(t, Some(next));
        work.set(t, true);
        proof {
            let now = views(entries@);
            assert(now =~= before_views.update(t as int, Some(na)));
            assert(grows(before_views, now)) by {
                assert forall|q: int| 0 <= q < before_views.len() && (#[trigger] before_views[q]) is Some implies now[q] is Some && below(before_views[q]->Some_0, now[q]->Some_0) by {
                    if q != t {
                        crate::facts::lemma_below_refl(before_views[q]->Some_0);
                    }
                }
            }
            lemma_grows_trans(start_views, before_views, now);
            // The state table stays ready.
            assert forall|q: int| 0 <= q < entries@.len() && (#[trigger] entries@[q]) is Some implies {
                &&& (entries@[q]->Some_0).wf(nl)
                &&& reached(*body, q)
                &&& justified(*body, lids@, q, (entries@[q]->Some_0).abs())
            } by {
                if q != t {
                    assert(entries@[q] == before_entries[q]);
                }
            }
            if t == entry {
                crate::facts::lemma_below_trans(initial(*body, lids@), before_views[t as int]->Some_0, na);
            } else {
                assert(entries@[entry as int] == before_entries[entry as int]);
            }
            // Blocks off the worklist stay stable.
            assert forall|q: int| 0 <= q < work@.len() && q != p && !(#[trigger] work@[q]) implies stable_at(*body, lids@, now, q) by {
                assert(q != t);
                assert(before_views[q] == now[q]);
                lemma_stable_grows(*body, lids@, before_views, now, q);
            }
            assert forall|q: int| 0 <= q < work@.len() && #[trigger] work@[q] implies entries@[q] is Some by {
                if q != t {
                    assert(before_entries[q] is Some);
                }
            }
            if t != p {
                assert(now[p as int] == before_views[p as int]);
            }
            // Edges visited so far still flow into states above them.
            assert forall|k: int|
                0 <= k < m + 1 && #[trigger] runtime_step(b, p as int, es@[k] as int) implies {
                    let t2 = step_target(b, p as int, es@[k] as int);
                    &&& 0 <= t2 < entries@.len()
                    &&& entries@[t2] is Some
                    &&& below(leave(*body, lids@, p as int, es@[k] as int, sa), (entries@[t2]->Some_0).abs())
                } by {
                let t2 = step_target(b, p as int, es@[k] as int);
                if k < m {
                    assert(before_views[t2] is Some);
                    assert(now[t2] == Some((entries@[t2]->Some_0).abs()));
                    crate::facts::lemma_below_trans(leave(*body, lids@, p as int, es@[k] as int, sa), before_views[t2]->Some_0, now[t2]->Some_0);
                }
            }
        }
        m += 1;
    }
    proof {
        let now = views(entries@);
        if !work@[p as int] {
            assert(stable_at(*body, lids@, now, p as int)) by {
                assert forall|j: int| #[trigger] runtime_step(b, p as int, j) implies {
                    let t = step_target(b, p as int, j);
                    &&& 0 <= t < now.len()
                    &&& now[t] is Some
                    &&& below(leave(*body, lids@, p as int, j, now[p as int]->Some_0), now[t]->Some_0)
                } by {
                    assert(lists(es@, j));
                    let k = choose|k: int| 0 <= k < es@.len() && es@[k] == j;
                    assert(runtime_step(b, p as int, es@[k] as int));
                }
            }
        }
        assert forall|q: int| 0 <= q < work@.len() && q != -1 && !(#[trigger] work@[q]) implies stable_at(*body, lids@, now, q) by {}
    }
    true
}

} // verus!

verus! {

/// Runs the worklist from the entry block until no block changes. Returns the entry
/// states, stable at every block, or `None` when a budget ran out or the control asked to
/// stop.
fn solve(
    report: &mut ReachingDefinitions,
    body: &CompilerBody,
    lids: &Vec<u32>,
    order: &Vec<usize>,
    entry: usize,
    start: FlowState,
    max: u64,
    max_iterations: u32,
    control: &AnalysisControl,
) -> (r: Option<Vec<Option<FlowState>>>)
    requires
        checked_body(*body, lids@),
        ascending(body.blocks@, order@),
        entry < body.blocks@.len(),
        body.blocks@[entry as int].index == 0,
        start.wf(lids@.len() as int),
        start.abs() == initial(*body, lids@),
        max <= 200_000,
        old(report).iterations <= max_iterations,
    ensures
        final(report).iterations <= max_iterations,
        final(report).body_id == old(report).body_id,
        final(report).fixed_point == old(report).fixed_point,
        final(report).envelope.algorithm_version == old(report).envelope.algorithm_version,
        final(report).envelope.assumptions == old(report).envelope.assumptions,
        final(report).reachable_blocks@ == old(report).reachable_blocks@,
        final(report).definitions@ == old(report).definitions@,
        final(report).uses@ == old(report).uses@,
        final(report).unknown_memory_effects@ == old(report).unknown_memory_effects@,
        match r {
            Some(entries) => {
                &&& ready(*body, lids@, entries@, entry as int)
                &&& forall|q: int| 0 <= q < entries@.len() ==> #[trigger] stable_at(*body, lids@, views(entries@), q)
                &&& final(report).envelope == old(report).envelope
            },
            None => final(report).envelope.truncated && (halted(*final(report)) || solver_limited(
                coverage_view(old(report).envelope.coverage),
                coverage_view(final(report).envelope.coverage),
            )),
        },
{
    let ghost b = body.blocks@;
    let n = body.blocks.len();
    let mut entries: Vec<Option<FlowState>> = Vec::new();
    let mut work: Vec<bool> = Vec::new();
    let mut i: usize = 0;
    while i < n
        invariant
            i <= n,
            n == body.blocks@.len(),
            entries@.len() == i,
            work@.len() == i,
            forall|q: int| 0 <= q < i ==> (#[trigger] entries@[q]) is None && !work@[q],
        decreases n - i,
    {
        entries.push(None);
        work.push(false);
        i += 1;
    }
    let retained_start = start.facts_capped(max);
    let mut retained: u64 = if retained_start <= max { retained_start } else { max };
    let ghost sa = start.abs();
    entries.set(entry, Some(start));
    work.set(entry, true);
    proof {
        let empty = Seq::<(int, int)>::empty();
        lemma_at_unique(b, entry as int, 0);
        assert(path_end(b, empty) == entry);
        assert(arrives(b, empty, entry as int));
        lemma_initial_justified(*body, lids@);
        crate::facts::lemma_below_refl(sa);
        assert forall|q: int| 0 <= q < entries@.len() && (#[trigger] entries@[q]) is Some implies {
            &&& (entries@[q]->Some_0).wf(lids@.len() as int)
            &&& reached(*body, q)
            &&& justified(*body, lids@, q, (entries@[q]->Some_0).abs())
        } by {
            assert(q == entry);
        }
        assert forall|q: int| 0 <= q < work@.len() && q != -1 && !(#[trigger] work@[q]) implies stable_at(*body, lids@, views(entries@), q) by {
            assert(q != entry);
            assert(views(entries@)[q] is None);
        }
    }
    loop
        invariant
            n == body.blocks@.len(),
            b == body.blocks@,
            checked_body(*body, lids@),
            ascending(b, order@),
            max <= 200_000,
            retained <= max,
            report.iterations <= max_iterations,
            ready(*body, lids@, entries@, entry as int),
            settled(*body, lids@, entries@, work@, -1),
            report.body_id == old(report).body_id,
            report.fixed_point == old(report).fixed_point,
            report.envelope == old(report).envelope,
            report.reachable_blocks@ == old(report).reachable_blocks@,
            report.definitions@ == old(report).definitions@,
            report.uses@ == old(report).uses@,
            report.unknown_memory_effects@ == old(report).unknown_memory_effects@,
        decreases max_iterations - report.iterations,
    {
        let mut r: usize = 0;
        while r < n && !work[order[r]]
            invariant
                r <= n,
                n == body.blocks@.len(),
                ascending(b, order@),
                b == body.blocks@,
                work@.len() == n,
                forall|k: int| 0 <= k < r ==> !work@[(#[trigger] order@[k]) as int],
            decreases n - r,
        {
            r += 1;
        }
        if r == n {
            proof {
                assert forall|q: int| 0 <= q < entries@.len() implies #[trigger] stable_at(*body, lids@, views(entries@), q) by {
                    assert(lists(order@, q));
                    let k = choose|k: int| 0 <= k < order@.len() && order@[k] == q;
                    assert(!work@[order@[k] as int]);
                }
            }
            return Some(entries);
        }
        let p = order[r];
        work.set(p, false);
        proof {
            assert forall|q: int| 0 <= q < work@.len() && q != p && !(#[trigger] work@[q]) implies stable_at(*body, lids@, views(entries@), q) by {}
            assert forall|q: int| 0 <= q < work@.len() && #[trigger] work@[q] implies entries@[q] is Some by {}
        }
        if control.stopped() {
            halt(report, control);
            return None;
        }
        if report.iterations == max_iterations {
            limit(report, "Reaching definitions did not converge within the iteration budget");
            proof {
                assert(solver_message("Reaching definitions did not converge within the iteration budget"@));
            }
            return None;
        }
        report.iterations = report.iterations + 1;
        if !visit(report, body, lids, &mut entries, &mut work, &mut retained, p, entry, max, control) {
            return None;
        }
    }
}

} // verus!

verus! {

// ---------------------------------------------------------------------------
// Exactness at the fixed point
// ---------------------------------------------------------------------------

/// At a fixed point, a block has a state exactly when it is reached, and each state holds
/// exactly what happens on entry to its block along some runtime path.
proof fn lemma_fixed_exact(body: CompilerBody, lids: Seq<u32>, entries: Seq<Option<FlowState>>, entry: int)
    requires
        checked_body(body, lids),
        ready(body, lids, entries, entry),
        path_end(body.blocks@, Seq::<(int, int)>::empty()) == entry,
        forall|q: int| 0 <= q < entries.len() ==> #[trigger] stable_at(body, lids, views(entries), q),
    ensures
        forall|p: int| 0 <= p < entries.len() ==> ((#[trigger] entries[p]) is Some <==> reached(body, p)),
        forall|p: int| 0 <= p < entries.len() && (#[trigger] entries[p]) is Some ==> exact_at(body, lids, p, (entries[p]->Some_0).abs()),
{
    let v = views(entries);
    assert(v[entry] == Some((entries[entry]->Some_0).abs()));
    assert forall|path: Seq<(int, int)>| path_ok(body.blocks@, path) implies {
        let e = path_end(body.blocks@, path);
        &&& 0 <= e < entries.len()
        &&& entries[e] is Some
        &&& covers_path(body, lids, path, (entries[e]->Some_0).abs())
    } by {
        lemma_stable_covers(body, lids, v, path);
        let e = path_end(body.blocks@, path);
        assert(v[e] == Some((entries[e]->Some_0).abs()));
    }
    assert forall|p: int| 0 <= p < entries.len() implies ((#[trigger] entries[p]) is Some <==> reached(body, p)) by {
        if reached(body, p) {
            let w = choose|path: Seq<(int, int)>| #[trigger] arrives(body.blocks@, path, p);
            assert(path_ok(body.blocks@, w));
        }
    }
    assert forall|p: int| 0 <= p < entries.len() && (#[trigger] entries[p]) is Some implies exact_at(body, lids, p, (entries[p]->Some_0).abs()) by {
        let a = (entries[p]->Some_0).abs();
        assert forall|path: Seq<(int, int)>| #[trigger] arrives(body.blocks@, path, p) implies covers_path(body, lids, path, a) by {
            assert(path_ok(body.blocks@, path));
        }
        lemma_exact(body, lids, p, a);
    }
}

/// Whether the state `a` holds exactly what happens on entry to the block at `p`.
pub open spec fn exact_at(body: CompilerBody, lids: Seq<u32>, p: int, a: Abstract) -> bool {
    &&& a.slots.len() == lids.len()
    &&& forall|i: int, d: MirPoint|
        0 <= i < lids.len() ==> (#[trigger] a.slots[i].0.contains(d) <==> holds_on_entry(body, p, lids[i], d))
    &&& forall|i: int| 0 <= i < lids.len() ==> ((#[trigger] a.slots[i]).1 <==> lacks_on_entry(body, p, lids[i]))
    &&& forall|e: CompilerUnknownEffect| #[trigger] a.unknown.contains(e) <==> meets_on_entry(body, p, e)
}

/// Within a reached block, the state after `k` groups of an exact entry state holds
/// exactly what reaches group `k`.
proof fn lemma_exact_within(body: CompilerBody, lids: Seq<u32>, p: int, k: int, a: Abstract, i: int)
    requires
        0 <= p < body.blocks@.len(),
        reached(body, p),
        exact_at(body, lids, p, a),
        0 <= i < lids.len(),
    ensures
        forall|d: MirPoint|
            #[trigger] after_groups(lids, body.blocks@[p], k, a).slots[i].0.contains(d) <==> crate::flow::may_reach(
                body,
                p,
                k,
                lids[i],
                d,
            ),
        after_groups(lids, body.blocks@[p], k, a).slots[i].1 <==> crate::flow::may_lack(body, p, k, lids[i]),
{
    let blk = body.blocks@[p];
    let l = lids[i];
    let s = after_groups(lids, blk, k, a).slots[i];
    let w = choose|path: Seq<(int, int)>| #[trigger] arrives(body.blocks@, path, p);
    assert(arrives(body.blocks@, w, p));
    match writes_before(blk, k, l) {
        Some(Some(pt)) => {
            assert(crate::flow::value_at(body, w, k, l) == Some(pt));
            assert forall|d: MirPoint| #[trigger] s.0.contains(d) <==> crate::flow::may_reach(body, p, k, l, d) by {
                if crate::flow::may_reach(body, p, k, l, d) {
                    let x = choose|path: Seq<(int, int)>| #[trigger] arrives(body.blocks@, path, p) && crate::flow::value_at(body, path, k, l) == Some(d);
                    assert(path_end(body.blocks@, x) == p);
                }
            }
            if crate::flow::may_lack(body, p, k, l) {
                let x = choose|path: Seq<(int, int)>| #[trigger] arrives(body.blocks@, path, p) && crate::flow::value_at(body, path, k, l) is None;
                assert(path_end(body.blocks@, x) == p);
            }
        },
        Some(None) => {
            assert(crate::flow::value_at(body, w, k, l) is None);
            assert forall|d: MirPoint| #[trigger] s.0.contains(d) <==> crate::flow::may_reach(body, p, k, l, d) by {
                if crate::flow::may_reach(body, p, k, l, d) {
                    let x = choose|path: Seq<(int, int)>| #[trigger] arrives(body.blocks@, path, p) && crate::flow::value_at(body, path, k, l) == Some(d);
                    assert(path_end(body.blocks@, x) == p);
                }
            }
        },
        None => {
            assert forall|d: MirPoint| #[trigger] s.0.contains(d) <==> crate::flow::may_reach(body, p, k, l, d) by {
                assert(a.slots[i].0.contains(d) <==> holds_on_entry(body, p, l, d));
                if crate::flow::may_reach(body, p, k, l, d) {
                    let x = choose|path: Seq<(int, int)>| #[trigger] arrives(body.blocks@, path, p) && crate::flow::value_at(body, path, k, l) == Some(d);
                    assert(path_end(body.blocks@, x) == p);
                    assert(crate::flow::value_along(body, x, l) == Some(d));
                }
                if holds_on_entry(body, p, l, d) {
                    let x = choose|path: Seq<(int, int)>| #[trigger] arrives(body.blocks@, path, p) && crate::flow::value_along(body, path, l) == Some(d);
                    assert(crate::flow::value_at(body, x, k, l) == Some(d));
                }
            }
            assert(a.slots[i].1 <==> lacks_on_entry(body, p, l));
            if crate::flow::may_lack(body, p, k, l) {
                let x = choose|path: Seq<(int, int)>| #[trigger] arrives(body.blocks@, path, p) && crate::flow::value_at(body, path, k, l) is None;
                assert(path_end(body.blocks@, x) == p);
                assert(crate::flow::value_along(body, x, l) is None);
            }
            if lacks_on_entry(body, p, l) {
                let x = choose|path: Seq<(int, int)>| #[trigger] arrives(body.blocks@, path, p) && crate::flow::value_along(body, path, l) is None;
                assert(crate::flow::value_at(body, x, k, l) is None);
            }
        },
    }
}

/// Within a reached block, the unknown effects after `k` groups of an exact entry state
/// are present exactly when some runtime path meets one before group `k`.
proof fn lemma_exact_unknowns(body: CompilerBody, lids: Seq<u32>, p: int, k: int, a: Abstract)
    requires
        0 <= p < body.blocks@.len(),
        reached(body, p),
        exact_at(body, lids, p, a),
    ensures
        !after_groups(lids, body.blocks@[p], k, a).unknown.is_empty() <==> crate::flow::may_meet_unknown(body, p, k),
{
    let blk = body.blocks@[p];
    let u = after_groups(lids, blk, k, a).unknown;
    if !u.is_empty() {
        let e = u.choose();
        assert(u.contains(e));
        if a.unknown.contains(e) {
            assert(meets_on_entry(body, p, e));
            let x = choose|path: Seq<(int, int)>| #[trigger] arrives(body.blocks@, path, p) && crate::flow::unknowns_along(body, path).contains(e);
            assert(crate::flow::unknowns_at(body, x, k).contains(e));
        } else {
            let w = choose|path: Seq<(int, int)>| #[trigger] arrives(body.blocks@, path, p);
            assert(crate::flow::unknowns_at(body, w, k).contains(e));
        }
    }
    if crate::flow::may_meet_unknown(body, p, k) {
        let x = choose|path: Seq<(int, int)>| #[trigger] arrives(body.blocks@, path, p) && !crate::flow::unknowns_at(body, path, k).is_empty();
        let e = crate::flow::unknowns_at(body, x, k).choose();
        assert(crate::flow::unknowns_at(body, x, k).contains(e));
        if crate::flow::unknowns_along(body, x).contains(e) {
            assert(meets_on_entry(body, p, e));
        }
        assert(u.contains(e));
    }
}

} // verus!

verus! {

// ---------------------------------------------------------------------------
// Ordered output lists
// ---------------------------------------------------------------------------

/// Whether definitions are strictly increasing.
pub open spec fn definitions_sorted(s: Seq<LocalDefinition>) -> bool {
    forall|i: int, j: int| 0 <= i < j < s.len() ==> definition_less(#[trigger] s[i], #[trigger] s[j])
}

/// Whether locals are strictly increasing.
pub open spec fn locals_sorted(s: Seq<u32>) -> bool {
    forall|i: int, j: int| 0 <= i < j < s.len() ==> #[trigger] s[i] < #[trigger] s[j]
}

proof fn lemma_definition_order(a: LocalDefinition, b: LocalDefinition, c: LocalDefinition)
    ensures
        !definition_less(a, a),
        a != b ==> definition_less(a, b) || definition_less(b, a),
        definition_less(a, b) && definition_less(b, c) ==> definition_less(a, c),
        definition_less(a, b) ==> !definition_less(b, a),
{
    crate::flow::lemma_point_key_injective(a.point, b.point);
}

/// Inserts `d` into a strictly increasing list that lacks it.
fn insert_definition(v: &mut Vec<LocalDefinition>, d: LocalDefinition)
    requires
        definitions_sorted(old(v)@),
        !old(v)@.contains(d),
    ensures
        definitions_sorted(final(v)@),
        forall|x: LocalDefinition| #[trigger] final(v)@.contains(x) <==> (old(v)@.contains(x) || x == d),
        final(v)@.len() == old(v)@.len() + 1,
{
    let mut at_: usize = 0;
    while at_ < v.len() && crate::flow::definition_lt(v[at_], d)
        invariant
            at_ <= v@.len(),
            forall|k: int| 0 <= k < at_ ==> definition_less(#[trigger] v@[k], d),
        decreases v.len() - at_,
    {
        at_ += 1;
    }
    let ghost before = v@;
    proof {
        assert forall|k: int| at_ <= k < before.len() implies definition_less(d, #[trigger] before[k]) by {
            lemma_definition_order(before[at_ as int], d, before[k]);
            lemma_definition_order(d, before[at_ as int], before[k]);
            assert(before[at_ as int] != d) by {
                assert(before.contains(before[at_ as int]));
            }
            if k > at_ {
                assert(definition_less(before[at_ as int], before[k]));
                lemma_definition_order(d, before[at_ as int], before[k]);
            }
        }
    }
    v.insert(at_, d);
    proof {
        assert(v@ =~= before.subrange(0, at_ as int).push(d).add(before.subrange(at_ as int, before.len() as int)));
        assert forall|i: int, j: int| 0 <= i < j < v@.len() implies definition_less(#[trigger] v@[i], #[trigger] v@[j]) by {
            if j < at_ {
            } else if j == at_ {
                assert(v@[i] == before[i]);
            } else if i < at_ {
                assert(v@[i] == before[i]);
                assert(v@[j] == before[j - 1]);
                lemma_definition_order(before[i], d, before[j - 1]);
            } else if i == at_ {
                assert(v@[j] == before[j - 1]);
            } else {
                assert(v@[i] == before[i - 1]);
                assert(v@[j] == before[j - 1]);
            }
        }
        assert forall|x: LocalDefinition| #[trigger] v@.contains(x) <==> (before.contains(x) || x == d) by {
            if v@.contains(x) {
                let k = choose|k: int| 0 <= k < v@.len() && #[trigger] v@[k] == x;
                if k < at_ {
                    assert(before[k] == x);
                } else if k > at_ {
                    assert(before[k - 1] == x);
                }
            }
            if before.contains(x) {
                let k = choose|k: int| 0 <= k < before.len() && #[trigger] before[k] == x;
                if k < at_ {
                    assert(v@[k] == x);
                } else {
                    assert(v@[k + 1] == x);
                }
            }
            if x == d {
                assert(v@[at_ as int] == d);
            }
        }
    }
}

/// Whether a strictly increasing list of definitions holds `d`.
fn holds_definition(v: &Vec<LocalDefinition>, d: LocalDefinition) -> (r: bool)
    ensures
        r == v@.contains(d),
{
    let mut k: usize = 0;
    while k < v.len()
        invariant
            k <= v@.len(),
            forall|m: int| 0 <= m < k ==> v@[m] != d,
        decreases v.len() - k,
    {
        if v[k] == d {
            return true;
        }
        k += 1;
    }
    false
}

/// Adds `d` to a strictly increasing list unless it is there.
fn add_definition(v: &mut Vec<LocalDefinition>, d: LocalDefinition)
    requires
        definitions_sorted(old(v)@),
    ensures
        definitions_sorted(final(v)@),
        forall|x: LocalDefinition| #[trigger] final(v)@.contains(x) <==> (old(v)@.contains(x) || x == d),
{
    if !holds_definition(v, d) {
        insert_definition(v, d);
    }
}

/// The definitions of `l` at the listed points, strictly increasing.
fn reaching_list(l: u32, points: &Vec<MirPoint>) -> (r: Vec<LocalDefinition>)
    ensures
        definitions_sorted(r@),
        forall|x: LocalDefinition| #[trigger] r@.contains(x) <==> (x.local == l && points@.contains(x.point)),
{
    let mut out: Vec<LocalDefinition> = Vec::new();
    let mut k: usize = 0;
    while k < points.len()
        invariant
            k <= points@.len(),
            definitions_sorted(out@),
            forall|x: LocalDefinition| #[trigger] out@.contains(x) <==> (x.local == l && points@.take(k as int).contains(x.point)),
        decreases points.len() - k,
    {
        let d = LocalDefinition { local: l, point: points[k] };
        add_definition(&mut out, d);
        proof {
            assert(points@.take(k + 1) =~= points@.take(k as int).push(points@[k as int]));
            assert forall|x: LocalDefinition| #[trigger] out@.contains(x) <==> (x.local == l && points@.take(k + 1).contains(x.point)) by {
                if points@.take(k + 1).contains(x.point) && !points@.take(k as int).contains(x.point) {
                    assert(x.point == points@[k as int]) by {
                        let w = choose|w: int| 0 <= w < k + 1 && #[trigger] points@.take(k + 1)[w] == x.point;
                        if w < k {
                            assert(points@.take(k as int)[w] == x.point);
                        }
                    }
                }
                if points@.take(k as int).contains(x.point) {
                    let w = choose|w: int| 0 <= w < k && #[trigger] points@.take(k as int)[w] == x.point;
                    assert(points@.take(k + 1)[w] == x.point);
                }
                if x == d {
                    assert(points@.take(k + 1)[k as int] == x.point);
                }
            }
        }
        k += 1;
    }
    proof {
        assert(points@.take(k as int) =~= points@);
    }
    out
}

/// The locals of two lists, strictly increasing and without repetition.
fn sorted_locals(a: &Vec<u32>, b: &Vec<u32>) -> (r: Vec<u32>)
    ensures
        locals_sorted(r@),
        forall|x: u32| #[trigger] r@.contains(x) <==> (a@.contains(x) || b@.contains(x)),
{
    let mut out: Vec<u32> = Vec::new();
    let mut k: usize = 0;
    let total = a.len() + if b.len() <= usize::MAX - a.len() { b.len() } else { 0 };
    while k < a.len()
        invariant
            k <= a@.len(),
            locals_sorted(out@),
            forall|x: u32| #[trigger] out@.contains(x) <==> a@.take(k as int).contains(x),
        decreases a.len() - k,
    {
        insert_local(&mut out, a[k]);
        proof {
            assert(a@.take(k + 1) =~= a@.take(k as int).push(a@[k as int]));
            assert forall|x: u32| #[trigger] out@.contains(x) <==> a@.take(k + 1).contains(x) by {
                if a@.take(k + 1).contains(x) && x != a@[k as int] {
                    let w = choose|w: int| 0 <= w < k + 1 && #[trigger] a@.take(k + 1)[w] == x;
                    assert(a@.take(k as int)[w] == x);
                }
                if a@.take(k as int).contains(x) {
                    let w = choose|w: int| 0 <= w < k && #[trigger] a@.take(k as int)[w] == x;
                    assert(a@.take(k + 1)[w] == x);
                }
                if x == a@[k as int] {
                    assert(a@.take(k + 1)[k as int] == x);
                }
            }
        }
        k += 1;
    }
    proof {
        assert(a@.take(k as int) =~= a@);
    }
    let mut k: usize = 0;
    while k < b.len()
        invariant
            k <= b@.len(),
            locals_sorted(out@),
            forall|x: u32| #[trigger] out@.contains(x) <==> (a@.contains(x) || b@.take(k as int).contains(x)),
        decreases b.len() - k,
    {
        insert_local(&mut out, b[k]);
        proof {
            assert(b@.take(k + 1) =~= b@.take(k as int).push(b@[k as int]));
            assert forall|x: u32| #[trigger] out@.contains(x) <==> (a@.contains(x) || b@.take(k + 1).contains(x)) by {
                if b@.take(k + 1).contains(x) && x != b@[k as int] {
                    let w = choose|w: int| 0 <= w < k + 1 && #[trigger] b@.take(k + 1)[w] == x;
                    assert(b@.take(k as int)[w] == x);
                }
                if b@.take(k as int).contains(x) {
                    let w = choose|w: int| 0 <= w < k && #[trigger] b@.take(k as int)[w] == x;
                    assert(b@.take(k + 1)[w] == x);
                }
                if x == b@[k as int] {
                    assert(b@.take(k + 1)[k as int] == x);
                }
            }
        }
        k += 1;
    }
    proof {
        assert(b@.take(k as int) =~= b@);
    }
    out
}

/// Inserts `x` into a strictly increasing list unless it is there.
fn insert_local(v: &mut Vec<u32>, x: u32)
    requires
        locals_sorted(old(v)@),
    ensures
        locals_sorted(final(v)@),
        forall|y: u32| #[trigger] final(v)@.contains(y) <==> (old(v)@.contains(y) || y == x),
{
    let mut at_: usize = 0;
    while at_ < v.len() && v[at_] < x
        invariant
            at_ <= v@.len(),
            forall|k: int| 0 <= k < at_ ==> #[trigger] v@[k] < x,
        decreases v.len() - at_,
    {
        at_ += 1;
    }
    if at_ < v.len() && v[at_] == x {
        return;
    }
    let ghost before = v@;
    proof {
        assert forall|k: int| at_ <= k < before.len() implies x < #[trigger] before[k] by {
            if k > at_ {
                assert(before[at_ as int] < before[k]);
            }
        }
    }
    v.insert(at_, x);
    proof {
        assert(v@ =~= before.subrange(0, at_ as int).push(x).add(before.subrange(at_ as int, before.len() as int)));
        assert forall|i: int, j: int| 0 <= i < j < v@.len() implies #[trigger] v@[i] < #[trigger] v@[j] by {
            if j < at_ {
            } else if j == at_ {
                assert(v@[i] == before[i]);
            } else if i < at_ {
                assert(v@[i] == before[i]);
                assert(v@[j] == before[j - 1]);
            } else if i == at_ {
                assert(v@[j] == before[j - 1]);
            } else {
                assert(v@[i] == before[i - 1]);
                assert(v@[j] == before[j - 1]);
            }
        }
        assert forall|y: u32| #[trigger] v@.contains(y) <==> (before.contains(y) || y == x) by {
            if v@.contains(y) {
                let k = choose|k: int| 0 <= k < v@.len() && #[trigger] v@[k] == y;
                if k < at_ {
                    assert(before[k] == y);
                } else if k > at_ {
                    assert(before[k - 1] == y);
                }
            }
            if before.contains(y) {
                let k = choose|k: int| 0 <= k < before.len() && #[trigger] before[k] == y;
                if k < at_ {
                    assert(v@[k] == y);
                } else {
                    assert(v@[k + 1] == y);
                }
            }
            if y == x {
                assert(v@[at_ as int] == x);
            }
        }
    }
}

/// The distinct effects of a list, in rank order.
fn effect_list(list: &Vec<CompilerUnknownEffect>) -> (r: Vec<CompilerUnknownEffect>)
    ensures
        forall|i: int, j: int| 0 <= i < j < r@.len() ==> crate::flow::effect_rank(#[trigger] r@[i]) < crate::flow::effect_rank(#[trigger] r@[j]),
        forall|e: CompilerUnknownEffect| #[trigger] r@.contains(e) <==> list@.contains(e),
{
    let mut out: Vec<CompilerUnknownEffect> = Vec::new();
    let mut k: usize = 0;
    while k < 10
        invariant
            k <= 10,
            forall|i: int, j: int| 0 <= i < j < out@.len() ==> crate::flow::effect_rank(#[trigger] out@[i]) < crate::flow::effect_rank(#[trigger] out@[j]),
            forall|i: int| 0 <= i < out@.len() ==> crate::flow::effect_rank(#[trigger] out@[i]) < k,
            forall|e: CompilerUnknownEffect| #[trigger] out@.contains(e) <==> (list@.contains(e) && crate::flow::effect_rank(e) < k),
        decreases 10 - k,
    {
        let e = crate::flow::effect_of_rank(k);
        let mut found = false;
        let mut m: usize = 0;
        while m < list.len()
            invariant
                m <= list@.len(),
                found == list@.take(m as int).contains(e),
            decreases list.len() - m,
        {
            proof {
                assert(list@.take(m + 1) =~= list@.take(m as int).push(list@[m as int]));
            }
            if list[m] == e {
                found = true;
            }
            proof {
                if list@[m as int] == e {
                    assert(list@.take(m + 1)[m as int] == e);
                } else {
                    if list@.take(m + 1).contains(e) {
                        let w = choose|w: int| 0 <= w < m + 1 && #[trigger] list@.take(m + 1)[w] == e;
                        assert(list@.take(m as int)[w] == e);
                    }
                    if list@.take(m as int).contains(e) {
                        let w = choose|w: int| 0 <= w < m && #[trigger] list@.take(m as int)[w] == e;
                        assert(list@.take(m + 1)[w] == e);
                    }
                }
            }
            m += 1;
        }
        proof {
            assert(list@.take(m as int) =~= list@);
        }
        let ghost before = out@;
        if found {
            out.push(e);
        }
        proof {
            assert forall|x: CompilerUnknownEffect| #[trigger] out@.contains(x) <==> (list@.contains(x) && crate::flow::effect_rank(x) < k + 1) by {
                crate::flow::lemma_effect_rank(x);
                if found && x == e {
                    assert(out@[before.len() as int] == e);
                }
                if out@.contains(x) && !before.contains(x) {
                    let w = choose|w: int| 0 <= w < out@.len() && #[trigger] out@[w] == x;
                    assert(w == before.len());
                }
                if before.contains(x) {
                    let w = choose|w: int| 0 <= w < before.len() && #[trigger] before[w] == x;
                    assert(out@[w] == x);
                }
                if crate::flow::effect_rank(x) == k {
                    assert(x == e);
                }
            }
        }
        k += 1;
    }
    proof {
        assert forall|e: CompilerUnknownEffect| #[trigger] out@.contains(e) <==> list@.contains(e) by {
            crate::flow::lemma_effect_rank(e);
        }
    }
    out
}

} // verus!

verus! {

// ---------------------------------------------------------------------------
// What the report claims
// ---------------------------------------------------------------------------

/// Whether effects read `l`: a use or a move.
pub open spec fn reads(e: CompilerLocalEffects, l: u32) -> bool {
    e.uses@.contains(l) || e.moves@.contains(l)
}

/// The place of group `k` within its block: statements by position, then the terminator.
pub open spec fn place_in(blk: CompilerBlock, k: int) -> int {
    if k < blk.statements@.len() {
        k
    } else {
        4294967296
    }
}

/// The block index and place of a point in the order claims are made.
pub open spec fn point_place(pt: MirPoint) -> (int, int) {
    match pt {
        MirPoint::Entry => (-1, 0),
        MirPoint::Statement { block, index } => (block as int, index as int),
        MirPoint::Terminator { block } => (block as int, 4294967296),
        MirPoint::NormalReturn { block, target } => (block as int, 4294967297),
    }
}

/// The order key of a use: its point's place, then its local.
pub open spec fn use_key(u: LocalUse) -> (int, int, int) {
    (point_place(u.point).0, point_place(u.point).1, u.local as int)
}

/// The order key of an unknown-effect record: after the uses of its point.
pub open spec fn effect_key(x: UnknownMemoryEffect) -> (int, int, int) {
    (point_place(x.point).0, point_place(x.point).1, 4294967296)
}

/// The order key of group `k` of the block at `p`, with a last component `z`.
pub open spec fn group_key(body: CompilerBody, p: int, k: int, z: int) -> (int, int, int) {
    (body.blocks@[p].index as int, place_in(body.blocks@[p], k), z)
}

/// Whether `u` is the read of its local by group `k` of the reached block at `p`, with
/// exactly the assignments that reach that read along some runtime path (in increasing
/// order), whether some path reaches it with none, and whether some path meets an unknown
/// memory effect before it or the group itself has one.
pub open spec fn use_claims(body: CompilerBody, p: int, k: int, u: LocalUse) -> bool {
    &&& 0 <= p < body.blocks@.len()
    &&& reached(body, p)
    &&& 0 <= k < group_count(body.blocks@[p])
    &&& u.point == group_point(body.blocks@[p], k)
    &&& reads(group_effects(body.blocks@[p], k), u.local)
    &&& definitions_sorted(u.reaching@)
    &&& forall|x: LocalDefinition|
        #[trigger] u.reaching@.contains(x) <==> (x.local == u.local && crate::flow::may_reach(
            body,
            p,
            k,
            u.local,
            x.point,
        ))
    &&& u.may_be_uninitialized == crate::flow::may_lack(body, p, k, u.local)
    &&& u.possibly_changed_by_unknown_memory == (crate::flow::may_meet_unknown(body, p, k)
        || group_unknowns(body.blocks@[p], k).len() > 0)
}

/// Whether `u` is a correct claim about some read.
pub open spec fn claimed_use(body: CompilerBody, u: LocalUse) -> bool {
    exists|p: int, k: int| #[trigger] use_claims(body, p, k, u)
}

/// Whether group `k` of the block at `p` is reached and reads `l`.
pub open spec fn expected_use(body: CompilerBody, p: int, k: int, l: u32) -> bool {
    &&& 0 <= p < body.blocks@.len()
    &&& reached(body, p)
    &&& 0 <= k < group_count(body.blocks@[p])
    &&& reads(group_effects(body.blocks@[p], k), l)
}

/// Whether the uses are correct claims, strictly increasing, all below `f`, and include
/// every expected read below `f`.
pub open spec fn uses_upto(body: CompilerBody, uses: Seq<LocalUse>, f: (int, int, int)) -> bool {
    &&& forall|i: int| 0 <= i < uses.len() ==> claimed_use(body, #[trigger] uses[i]) && crate::flow::triple_less(use_key(uses[i]), f)
    &&& forall|i: int, j: int| 0 <= i < j < uses.len() ==> crate::flow::triple_less(use_key(#[trigger] uses[i]), use_key(#[trigger] uses[j]))
    &&& forall|p: int, k: int, l: u32|
        #[trigger] expected_use(body, p, k, l) && crate::flow::triple_less(group_key(body, p, k, l as int), f) ==> exists|i: int|
            0 <= i < uses.len() && (#[trigger] uses[i]).point == group_point(body.blocks@[p], k) && uses[i].local == l
}

/// Whether `x` records the unknown effects of group `k` of the reached block at `p`:
/// each distinct effect once, in rank order.
pub open spec fn effect_claims(body: CompilerBody, p: int, k: int, x: UnknownMemoryEffect) -> bool {
    &&& 0 <= p < body.blocks@.len()
    &&& reached(body, p)
    &&& 0 <= k < group_count(body.blocks@[p])
    &&& x.point == group_point(body.blocks@[p], k)
    &&& group_unknowns(body.blocks@[p], k).len() > 0
    &&& forall|i: int, j: int| 0 <= i < j < x.effects@.len() ==> crate::flow::effect_rank(#[trigger] x.effects@[i]) < crate::flow::effect_rank(#[trigger] x.effects@[j])
    &&& forall|e: CompilerUnknownEffect| #[trigger] x.effects@.contains(e) <==> group_unknowns(body.blocks@[p], k).contains(e)
}

/// Whether `x` is a correct record of some group's unknown effects.
pub open spec fn claimed_effect(body: CompilerBody, x: UnknownMemoryEffect) -> bool {
    exists|p: int, k: int| #[trigger] effect_claims(body, p, k, x)
}

/// Whether group `k` of the block at `p` is reached and has unknown effects.
pub open spec fn expected_effect(body: CompilerBody, p: int, k: int) -> bool {
    &&& 0 <= p < body.blocks@.len()
    &&& reached(body, p)
    &&& 0 <= k < group_count(body.blocks@[p])
    &&& group_unknowns(body.blocks@[p], k).len() > 0
}

/// Whether the records are correct, strictly increasing, all below `f`, and include every
/// expected record below `f`.
pub open spec fn effects_upto(body: CompilerBody, xs: Seq<UnknownMemoryEffect>, f: (int, int, int)) -> bool {
    &&& forall|i: int| 0 <= i < xs.len() ==> claimed_effect(body, #[trigger] xs[i]) && crate::flow::triple_less(effect_key(xs[i]), f)
    &&& forall|i: int, j: int| 0 <= i < j < xs.len() ==> crate::flow::triple_less(effect_key(#[trigger] xs[i]), effect_key(#[trigger] xs[j]))
    &&& forall|p: int, k: int|
        #[trigger] expected_effect(body, p, k) && crate::flow::triple_less(group_key(body, p, k, 4294967296), f) ==> exists|i: int|
            0 <= i < xs.len() && (#[trigger] xs[i]).point == group_point(body.blocks@[p], k)
}

/// Whether `d` is an assignment the body makes on some runtime path: an argument at the
/// entry, an assignment by a group of a reached block, or a call destination on a normal
/// return out of a reached block.
pub open spec fn expected_definition(body: CompilerBody, d: LocalDefinition) -> bool {
    ||| d.point == MirPoint::Entry && 1 <= d.local <= body.argument_count
    ||| exists|p: int, k: int|
        0 <= p < body.blocks@.len() && reached(body, p) && 0 <= k < group_count(body.blocks@[p]) && d.point
            == #[trigger] group_point(body.blocks@[p], k) && group_effects(body.blocks@[p], k).defs@.contains(
            d.local,
        )
    ||| exists|p: int, j: int|
        0 <= p < body.blocks@.len() && reached(body, p) && 0 <= j < body.blocks@[p].terminator.successors@.len()
            && (#[trigger] body.blocks@[p].terminator.successors@[j]).kind == CompilerEdgeKind::Normal && d.point
            == MirPoint::NormalReturn {
            block: body.blocks@[p].index,
            target: body.blocks@[p].terminator.successors@[j].target,
        } && body.blocks@[p].terminator.normal_return_defs@.contains(d.local)
}

/// The unknown-effect gap, `n` times.
pub open spec fn unknown_gaps(n: int) -> Seq<(UnknownReason, Seq<char>)> {
    Seq::new(n as nat, |i: int| (UnknownReason::UnsupportedConstruct, unknown_message()))
}

pub open spec fn unknown_message() -> Seq<char> {
    "Unknown call, pointer, alias, or external memory effects remain unresolved"@
}

/// The key of a claimed group, and key order within a block.
proof fn lemma_group_key(body: CompilerBody, lids: Seq<u32>, p: int, k: int, q: int, m: int)
    requires
        checked_body(body, lids),
        0 <= p < body.blocks@.len(),
        0 <= q < body.blocks@.len(),
        0 <= k < group_count(body.blocks@[p]),
        0 <= m < group_count(body.blocks@[q]),
    ensures
        point_place(group_point(body.blocks@[p], k)) == (body.blocks@[p].index as int, place_in(body.blocks@[p], k)),
        (group_key(body, p, k, 0).0 == group_key(body, q, m, 0).0 && group_key(body, p, k, 0).1 == group_key(body, q, m, 0).1) ==> p == q && k == m,
        p == q ==> (place_in(body.blocks@[p], k) < place_in(body.blocks@[q], m) <==> k < m),
        place_in(body.blocks@[p], k) <= 4294967296,
{
    let bp = body.blocks@[p];
    let bq = body.blocks@[q];
    assert(block_checked(bp, body.blocks@, lids));
    assert(block_checked(bq, body.blocks@, lids));
    if k < bp.statements@.len() {
        assert(bp.statements@[k].index == k);
    }
    if m < bq.statements@.len() {
        assert(bq.statements@[m].index == m);
    }
    if bp.statements@.len() > 0 {
        assert(bp.statements@[bp.statements@.len() - 1].index == bp.statements@.len() - 1);
    }
    if bq.statements@.len() > 0 {
        assert(bq.statements@[bq.statements@.len() - 1].index == bq.statements@.len() - 1);
    }
    if p != q {
        assert(bp.index != bq.index);
    }
}

} // verus!

verus! {

/// Moving the frontier of the uses past keys that no expected read has.
proof fn lemma_uses_extend(body: CompilerBody, uses: Seq<LocalUse>, f1: (int, int, int), f2: (int, int, int))
    requires
        uses_upto(body, uses, f1),
        !crate::flow::triple_less(f2, f1),
        forall|p: int, k: int, l: u32|
            #[trigger] expected_use(body, p, k, l) && crate::flow::triple_less(group_key(body, p, k, l as int), f2) ==> crate::flow::triple_less(
                group_key(body, p, k, l as int),
                f1,
            ),
    ensures
        uses_upto(body, uses, f2),
{
}

/// Appending a claimed use at or past the frontier.
proof fn lemma_uses_push(body: CompilerBody, uses: Seq<LocalUse>, u: LocalUse, f1: (int, int, int), f2: (int, int, int))
    requires
        uses_upto(body, uses, f1),
        claimed_use(body, u),
        !crate::flow::triple_less(use_key(u), f1),
        crate::flow::triple_less(use_key(u), f2),
        forall|p: int, k: int, l: u32|
            #[trigger] expected_use(body, p, k, l) && crate::flow::triple_less(group_key(body, p, k, l as int), f2) ==> (crate::flow::triple_less(
                group_key(body, p, k, l as int),
                f1,
            ) || (group_point(body.blocks@[p], k) == u.point && l == u.local)),
    ensures
        uses_upto(body, uses.push(u), f2),
{
    let v = uses.push(u);
    assert forall|i: int| 0 <= i < v.len() implies claimed_use(body, #[trigger] v[i]) && crate::flow::triple_less(use_key(v[i]), f2) by {
        if i < uses.len() {
            assert(v[i] == uses[i]);
        }
    }
    assert forall|i: int, j: int| 0 <= i < j < v.len() implies crate::flow::triple_less(use_key(#[trigger] v[i]), use_key(#[trigger] v[j])) by {
        if j < uses.len() {
            assert(v[i] == uses[i] && v[j] == uses[j]);
        } else {
            assert(v[i] == uses[i]);
        }
    }
    assert forall|p: int, k: int, l: u32|
        #[trigger] expected_use(body, p, k, l) && crate::flow::triple_less(group_key(body, p, k, l as int), f2) implies exists|i: int|
            0 <= i < v.len() && (#[trigger] v[i]).point == group_point(body.blocks@[p], k) && v[i].local == l by {
        if crate::flow::triple_less(group_key(body, p, k, l as int), f1) {
            let i = choose|i: int| 0 <= i < uses.len() && (#[trigger] uses[i]).point == group_point(body.blocks@[p], k) && uses[i].local == l;
            assert(v[i] == uses[i]);
        } else {
            assert(v[uses.len() as int] == u);
        }
    }
}

/// Moving the frontier of the records past keys that no expected record has.
proof fn lemma_effects_extend(body: CompilerBody, xs: Seq<UnknownMemoryEffect>, f1: (int, int, int), f2: (int, int, int))
    requires
        effects_upto(body, xs, f1),
        !crate::flow::triple_less(f2, f1),
        forall|p: int, k: int|
            #[trigger] expected_effect(body, p, k) && crate::flow::triple_less(group_key(body, p, k, 4294967296), f2) ==> crate::flow::triple_less(
                group_key(body, p, k, 4294967296),
                f1,
            ),
    ensures
        effects_upto(body, xs, f2),
{
}

/// Appending a claimed record at or past the frontier.
proof fn lemma_effects_push(body: CompilerBody, xs: Seq<UnknownMemoryEffect>, x: UnknownMemoryEffect, f1: (int, int, int), f2: (int, int, int))
    requires
        effects_upto(body, xs, f1),
        claimed_effect(body, x),
        !crate::flow::triple_less(effect_key(x), f1),
        crate::flow::triple_less(effect_key(x), f2),
        forall|p: int, k: int|
            #[trigger] expected_effect(body, p, k) && crate::flow::triple_less(group_key(body, p, k, 4294967296), f2) ==> (crate::flow::triple_less(
                group_key(body, p, k, 4294967296),
                f1,
            ) || group_point(body.blocks@[p], k) == x.point),
    ensures
        effects_upto(body, xs.push(x), f2),
{
    let v = xs.push(x);
    assert forall|i: int| 0 <= i < v.len() implies claimed_effect(body, #[trigger] v[i]) && crate::flow::triple_less(effect_key(v[i]), f2) by {
        if i < xs.len() {
            assert(v[i] == xs[i]);
        }
    }
    assert forall|i: int, j: int| 0 <= i < j < v.len() implies crate::flow::triple_less(effect_key(#[trigger] v[i]), effect_key(#[trigger] v[j])) by {
        if j < xs.len() {
            assert(v[i] == xs[i] && v[j] == xs[j]);
        } else {
            assert(v[i] == xs[i]);
        }
    }
    assert forall|p: int, k: int|
        #[trigger] expected_effect(body, p, k) && crate::flow::triple_less(group_key(body, p, k, 4294967296), f2) implies exists|i: int|
            0 <= i < v.len() && (#[trigger] v[i]).point == group_point(body.blocks@[p], k) by {
        if crate::flow::triple_less(group_key(body, p, k, 4294967296), f1) {
            let i = choose|i: int| 0 <= i < xs.len() && (#[trigger] xs[i]).point == group_point(body.blocks@[p], k);
            assert(v[i] == xs[i]);
        } else {
            assert(v[xs.len() as int] == x);
        }
    }
}

/// Whether any unknown effect is recorded.
fn any_unknown(state: &FlowState) -> (r: bool)
    requires
        state.unknown@.len() == crate::flow::effect_kinds(),
    ensures
        r == !state.abs().unknown.is_empty(),
{
    let mut k: usize = 0;
    while k < state.unknown.len()
        invariant
            k <= state.unknown@.len(),
            state.unknown@.len() == crate::flow::effect_kinds(),
            forall|m: int| 0 <= m < k ==> !state.unknown@[m],
        decreases state.unknown.len() - k,
    {
        if state.unknown[k] {
            proof {
                let e = crate::flow::effect_at(k as int);
                assert(crate::flow::effect_rank(e) == k);
                assert(state.abs().unknown.contains(e));
            }
            return true;
        }
        k += 1;
    }
    proof {
        assert forall|e: CompilerUnknownEffect| !state.abs().unknown.contains(e) by {
            crate::flow::lemma_effect_rank(e);
        }
        assert(state.abs().unknown =~= Set::<CompilerUnknownEffect>::empty());
    }
    false
}

/// An equal list of effects.
fn copy_effects(v: &Vec<CompilerUnknownEffect>) -> (r: Vec<CompilerUnknownEffect>)
    ensures
        r@ == v@,
{
    let mut out: Vec<CompilerUnknownEffect> = Vec::new();
    let mut k: usize = 0;
    while k < v.len()
        invariant
            k <= v@.len(),
            out@ == v@.take(k as int),
        decreases v.len() - k,
    {
        out.push(v[k]);
        k += 1;
        proof {
            assert(out@ =~= v@.take(k as int));
        }
    }
    proof {
        assert(v@.take(k as int) =~= v@);
    }
    out
}

} // verus!

verus! {

/// The frontier within group `k` before its `m`-th read local.
pub open spec fn read_frontier(body: CompilerBody, p: int, k: int, used: Seq<u32>, m: int) -> (int, int, int) {
    group_key(body, p, k, if m < used.len() { used[m] as int } else { 4294967296 })
}

/// Claims each read of group `k` of the reached block at `p`, given the state before it.
#[verifier::rlimit(50)]
#[verifier::spinoff_prover]
fn emit_uses(
    uses: &mut Vec<LocalUse>,
    body: &CompilerBody,
    lids: &Vec<u32>,
    p: usize,
    k: usize,
    state: &FlowState,
    Ghost(a): Ghost<Abstract>,
    used: &Vec<u32>,
    pt: MirPoint,
    group_unknown: bool,
)
    requires
        checked_body(*body, lids@),
        p < body.blocks@.len(),
        reached(*body, p as int),
        exact_at(*body, lids@, p as int, a),
        k < group_count(body.blocks@[p as int]),
        state.wf(lids@.len() as int),
        state.abs() == after_groups(lids@, body.blocks@[p as int], k as int, a),
        pt == group_point(body.blocks@[p as int], k as int),
        group_unknown == (group_unknowns(body.blocks@[p as int], k as int).len() > 0),
        locals_sorted(used@),
        forall|x: u32| #[trigger] used@.contains(x) <==> reads(group_effects(body.blocks@[p as int], k as int), x),
        uses_upto(*body, old(uses)@, group_key(*body, p as int, k as int, 0)),
    ensures
        uses_upto(*body, final(uses)@, group_key(*body, p as int, k as int, 4294967297)),
{
    let ghost b = body.blocks@;
    let ghost blk = b[p as int];
    let ghost e = group_effects(blk, k as int);
    let changed = any_unknown(state) || group_unknown;
    proof {
        lemma_exact_unknowns(*body, lids@, p as int, k as int, a);
        lemma_group_key(*body, lids@, p as int, k as int, p as int, k as int);
        // Nothing expected lies between the start of the group and its first read.
        assert forall|q: int, m: int, l: u32|
            #[trigger] expected_use(*body, q, m, l) && crate::flow::triple_less(group_key(*body, q, m, l as int), read_frontier(*body, p as int, k as int, used@, 0)) implies crate::flow::triple_less(
                group_key(*body, q, m, l as int),
                group_key(*body, p as int, k as int, 0),
            ) by {
            lemma_group_key(*body, lids@, q, m, p as int, k as int);
            if group_key(*body, q, m, 0).0 == group_key(*body, p as int, k as int, 0).0 && group_key(*body, q, m, 0).1 == group_key(*body, p as int, k as int, 0).1 {
                assert(used@.contains(l));
                let w = choose|w: int| 0 <= w < used@.len() && used@[w] == l;
                if w > 0 {
                    assert(used@[0] < used@[w]);
                }
            }
        }
        lemma_uses_extend(*body, uses@, group_key(*body, p as int, k as int, 0), read_frontier(*body, p as int, k as int, used@, 0));
    }
    let mut m: usize = 0;
    while m < used.len()
        invariant
            m <= used@.len(),
            b == body.blocks@,
            blk == b[p as int],
            e == group_effects(blk, k as int),
            checked_body(*body, lids@),
            p < b.len(),
            reached(*body, p as int),
            exact_at(*body, lids@, p as int, a),
            k < group_count(blk),
            state.wf(lids@.len() as int),
            state.abs() == after_groups(lids@, blk, k as int, a),
            pt == group_point(blk, k as int),
            changed == (crate::flow::may_meet_unknown(*body, p as int, k as int) || group_unknowns(blk, k as int).len() > 0),
            locals_sorted(used@),
            forall|x: u32| #[trigger] used@.contains(x) <==> reads(e, x),
            uses_upto(*body, uses@, read_frontier(*body, p as int, k as int, used@, m as int)),
        decreases used.len() - m,
    {
        let l = used[m];
        proof {
            assert(used@.contains(l));
            assert(block_checked(blk, b, lids@));
            assert(effects_tracked(e, lids@));
            if e.uses@.contains(l) {
                let w = choose|w: int| 0 <= w < e.uses@.len() && e.uses@[w] == l;
                assert(lids@.contains(e.uses@[w]));
            } else {
                let w = choose|w: int| 0 <= w < e.moves@.len() && e.moves@[w] == l;
                assert(lids@.contains(e.moves@[w]));
            }
        }
        let i = slot_index(lids, l);
        let slot = &state.slots[i];
        let reaching = reaching_list(l, &slot.defs);
        let u = LocalUse {
            local: l,
            point: pt,
            reaching,
            may_be_uninitialized: slot.uninit,
            possibly_changed_by_unknown_memory: changed,
        };
        proof {
            lemma_exact_within(*body, lids@, p as int, k as int, a, i as int);
            let s = after_groups(lids@, blk, k as int, a).slots[i as int];
            assert(state.abs().slots[i as int] == s);
            assert forall|x: LocalDefinition| #[trigger] u.reaching@.contains(x) <==> (x.local == u.local && crate::flow::may_reach(*body, p as int, k as int, u.local, x.point)) by {
                assert(slot.defs@.contains(x.point) <==> s.0.contains(x.point));
            }
            assert(use_claims(*body, p as int, k as int, u));
            assert(claimed_use(*body, u));
            lemma_group_key(*body, lids@, p as int, k as int, p as int, k as int);
            assert(use_key(u) == group_key(*body, p as int, k as int, l as int));
            let f1 = read_frontier(*body, p as int, k as int, used@, m as int);
            let f2 = read_frontier(*body, p as int, k as int, used@, m + 1);
            if m + 1 < used@.len() {
                assert(used@[m as int] < used@[m + 1]);
            }
            assert forall|q: int, n: int, x: u32|
                #[trigger] expected_use(*body, q, n, x) && crate::flow::triple_less(group_key(*body, q, n, x as int), f2) implies (crate::flow::triple_less(
                    group_key(*body, q, n, x as int),
                    f1,
                ) || (group_point(body.blocks@[q], n) == u.point && x == u.local)) by {
                lemma_group_key(*body, lids@, q, n, p as int, k as int);
                if !crate::flow::triple_less(group_key(*body, q, n, x as int), f1) {
                    assert(q == p && n == k);
                    assert(used@.contains(x));
                    let w = choose|w: int| 0 <= w < used@.len() && used@[w] == x;
                    if w < m {
                        assert(used@[w] < used@[m as int]);
                    } else if w > m {
                        if w > m + 1 {
                            assert(used@[m + 1] < used@[w]);
                        }
                    }
                }
            }
            lemma_uses_push(*body, uses@, u, f1, f2);
        }
        uses.push(u);
        m += 1;
    }
    proof {
        lemma_uses_extend(*body, uses@, group_key(*body, p as int, k as int, 4294967296), group_key(*body, p as int, k as int, 4294967297));
    }
}

} // verus!

verus! {

/// The body's coverage content.
pub open spec fn cover(c: Coverage) -> (crate::model::Status, Seq<crate::model::ReasonCount>, Seq<Seq<char>>) {
    coverage_view(c)
}

/// The report fields that claiming leaves alone.
pub open spec fn same_frame(x: ReachingDefinitions, y: ReachingDefinitions) -> bool {
    &&& x.body_id == y.body_id
    &&& x.iterations == y.iterations
    &&& x.fixed_point == y.fixed_point
    &&& x.reachable_blocks@ == y.reachable_blocks@
    &&& x.envelope.algorithm_version == y.envelope.algorithm_version
    &&& x.envelope.assumptions == y.envelope.assumptions
}

/// Claims group `k` of the reached block at `p`: checks the output budget, claims its
/// reads and unknown effects, collects its assignments, and applies it to `state`.
/// Returns `false` when the budget ran out or the control asked to stop.
#[verifier::rlimit(60)]
#[verifier::spinoff_prover]
fn emit_group(
    report: &mut ReachingDefinitions,
    body: &CompilerBody,
    lids: &Vec<u32>,
    p: usize,
    k: usize,
    state: &mut FlowState,
    Ghost(a): Ghost<Abstract>,
    defs: &mut Vec<LocalDefinition>,
    output: &mut u64,
    max: u64,
    control: &AnalysisControl,
    Ghost(cv0): Ghost<(crate::model::Status, Seq<crate::model::ReasonCount>, Seq<Seq<char>>)>,
) -> (r: bool)
    requires
        checked_body(*body, lids@),
        p < body.blocks@.len(),
        reached(*body, p as int),
        exact_at(*body, lids@, p as int, a),
        k < group_count(body.blocks@[p as int]),
        old(state).wf(lids@.len() as int),
        old(state).abs() == after_groups(lids@, body.blocks@[p as int], k as int, a),
        uses_upto(*body, old(report).uses@, group_key(*body, p as int, k as int, 0)),
        effects_upto(*body, old(report).unknown_memory_effects@, group_key(*body, p as int, k as int, 0)),
        coverage_view(old(report).envelope.coverage) == with_gaps(cv0, unknown_gaps(old(report).unknown_memory_effects@.len() as int)),
        definitions_sorted(old(defs)@),
        forall|d: LocalDefinition| #[trigger] old(defs)@.contains(d) ==> expected_definition(*body, d),
        *old(output) <= max,
        max <= 200_000,
    ensures
        same_frame(*old(report), *final(report)),
        definitions_sorted(final(defs)@),
        forall|d: LocalDefinition| #[trigger] old(defs)@.contains(d) ==> final(defs)@.contains(d),
        forall|d: LocalDefinition| #[trigger] final(defs)@.contains(d) ==> expected_definition(*body, d),
        r ==> {
            &&& uses_upto(*body, final(report).uses@, group_key(*body, p as int, k as int, 4294967297))
            &&& effects_upto(*body, final(report).unknown_memory_effects@, group_key(*body, p as int, k as int, 4294967297))
            &&& coverage_view(final(report).envelope.coverage) == with_gaps(cv0, unknown_gaps(final(report).unknown_memory_effects@.len() as int))
            &&& final(report).envelope.truncated == old(report).envelope.truncated
            &&& final(report).envelope.cancelled == old(report).envelope.cancelled
            &&& final(report).envelope.deadline_reached == old(report).envelope.deadline_reached
            &&& final(state).wf(lids@.len() as int)
            &&& final(state).abs() == after_groups(lids@, body.blocks@[p as int], k + 1, a)
            &&& forall|l: u32| #[trigger] group_effects(body.blocks@[p as int], k as int).defs@.contains(l) ==> final(defs)@.contains(
                LocalDefinition { local: l, point: group_point(body.blocks@[p as int], k as int) },
            )
            &&& *final(output) <= max
        },
        !r ==> final(report).envelope.truncated && exists|f: (int, int, int)|
            uses_upto(*body, final(report).uses@, f) && effects_upto(*body, final(report).unknown_memory_effects@, f),
        !r ==> halted(*final(report)) || output_limited(cv0, coverage_view(final(report).envelope.coverage)),
{
    let ghost b = body.blocks@;
    let ghost blk = b[p as int];
    let ghost f0 = group_key(*body, p as int, k as int, 0);
    let blocks = &body.blocks;
    let block = &blocks[p];
    if control.stopped() {
        halt(report, control);
        return false;
    }
    let n = block.statements.len();
    let effects = if k < n {
        &block.statements[k].locals
    } else {
        &block.terminator.locals
    };
    let unknowns = if k < n {
        copy_effects(&block.statements[k].locals.unknown_effects)
    } else {
        terminator_unknown_list(&block.terminator)
    };
    let pt = if k < n {
        MirPoint::Statement { block: block.index, index: block.statements[k].index }
    } else {
        MirPoint::Terminator { block: block.index }
    };
    proof {
        assert(*effects == group_effects(blk, k as int));
        assert(unknowns@ == group_unknowns(blk, k as int));
        assert(pt == group_point(blk, k as int));
        assert(block_checked(blk, b, lids@));
        assert(effects_tracked(*effects, lids@));
    }
    let used = sorted_locals(&effects.uses, &effects.moves);
    // The output facts of the group: each read with its reaching assignments, each
    // assignment, and each unknown effect.
    let room = max - *output;
    let mut extra: u64 = 0;
    let mut over = false;
    let mut m: usize = 0;
    while m < used.len()
        invariant
            m <= used@.len(),
            extra <= room,
            room <= max,
            max <= 200_000,
            state.wf(lids@.len() as int),
            forall|x: u32| #[trigger] used@.contains(x) <==> reads(*effects, x),
            effects_tracked(*effects, lids@),
        decreases used.len() - m,
    {
        let l = used[m];
        proof {
            assert(used@.contains(l));
            if effects.uses@.contains(l) {
                let w = choose|w: int| 0 <= w < effects.uses@.len() && effects.uses@[w] == l;
                assert(lids@.contains(effects.uses@[w]));
            } else {
                let w = choose|w: int| 0 <= w < effects.moves@.len() && effects.moves@[w] == l;
                assert(lids@.contains(effects.moves@[w]));
            }
        }
        let i = slot_index(lids, l);
        let count = state.slots[i].defs.len();
        if count as u64 >= room - extra {
            over = true;
            break;
        }
        extra = extra + 1 + count as u64;
        m += 1;
    }
    if !over {
        let d = effects.defs.len();
        if d as u64 > room - extra {
            over = true;
        } else {
            extra = extra + d as u64;
            let q = unknowns.len();
            if q as u64 > room - extra {
                over = true;
            } else {
                extra = extra + q as u64;
            }
        }
    }
    if over {
        let ghost len = report.unknown_memory_effects@.len() as int;
        limit(report, "Reaching-definition output exceeds the fact budget");
        proof {
            assert(unknown_gaps(len) == unknown_gaps(len));
        }
        return false;
    }
    *output = *output + extra;
    let changed_group = unknowns.len() > 0;
    emit_uses(&mut report.uses, body, lids, p, k, state, Ghost(a), &used, pt, changed_group);
    let ghost mid = *report;
    proof {
        lemma_group_key(*body, lids@, p as int, k as int, p as int, k as int);
    }
    if changed_group {
        let x = UnknownMemoryEffect { point: pt, effects: effect_list(&unknowns) };
        proof {
            assert(effect_claims(*body, p as int, k as int, x));
            assert(claimed_effect(*body, x));
            assert(effect_key(x) == group_key(*body, p as int, k as int, 4294967296));
            assert forall|q: int, n2: int|
                #[trigger] expected_effect(*body, q, n2) && crate::flow::triple_less(group_key(*body, q, n2, 4294967296), group_key(*body, p as int, k as int, 4294967297)) implies (crate::flow::triple_less(
                    group_key(*body, q, n2, 4294967296),
                    f0,
                ) || group_point(body.blocks@[q], n2) == x.point) by {
                lemma_group_key(*body, lids@, q, n2, p as int, k as int);
            }
            lemma_effects_push(*body, report.unknown_memory_effects@, x, f0, group_key(*body, p as int, k as int, 4294967297));
        }
        let ghost before_cov = coverage_view(report.envelope.coverage);
        let ghost count_before = report.unknown_memory_effects@.len() as int;
        report.unknown_memory_effects.push(x);
        report.envelope.partial(
            UnknownReason::UnsupportedConstruct,
            "Unknown call, pointer, alias, or external memory effects remain unresolved",
        );
        proof {
            lemma_with_gaps_push(cv0, unknown_gaps(count_before), UnknownReason::UnsupportedConstruct, unknown_message());
            assert(unknown_gaps(count_before + 1) =~= unknown_gaps(count_before).push((UnknownReason::UnsupportedConstruct, unknown_message())));
        }
    } else {
        proof {
            assert forall|q: int, n2: int|
                #[trigger] expected_effect(*body, q, n2) && crate::flow::triple_less(group_key(*body, q, n2, 4294967296), group_key(*body, p as int, k as int, 4294967297)) implies crate::flow::triple_less(
                    group_key(*body, q, n2, 4294967296),
                    f0,
                ) by {
                lemma_group_key(*body, lids@, q, n2, p as int, k as int);
            }
            lemma_effects_extend(*body, report.unknown_memory_effects@, f0, group_key(*body, p as int, k as int, 4294967297));
        }
    }
    let ghost defs_before = defs@;
    let mut j: usize = 0;
    while j < effects.defs.len()
        invariant
            j <= effects.defs@.len(),
            definitions_sorted(defs@),
            forall|d: LocalDefinition| #[trigger] defs_before.contains(d) ==> defs@.contains(d),
            forall|d: LocalDefinition| #[trigger] defs@.contains(d) ==> expected_definition(*body, d),
            forall|w: int| 0 <= w < j ==> defs@.contains(LocalDefinition { local: #[trigger] effects.defs@[w], point: pt }),
            *effects == group_effects(blk, k as int),
            pt == group_point(blk, k as int),
            blk == body.blocks@[p as int],
            p < body.blocks@.len(),
            reached(*body, p as int),
            k < group_count(blk),
        decreases effects.defs.len() - j,
    {
        let d = LocalDefinition { local: effects.defs[j], point: pt };
        proof {
            assert(group_effects(body.blocks@[p as int], k as int).defs@.contains(d.local)) by {
                assert(effects.defs@[j as int] == d.local);
            }
            assert(expected_definition(*body, d));
        }
        add_definition(defs, d);
        j += 1;
    }
    proof {
        assert forall|l: u32| #[trigger] group_effects(blk, k as int).defs@.contains(l) implies defs@.contains(LocalDefinition { local: l, point: group_point(blk, k as int) }) by {
            let w = choose|w: int| 0 <= w < effects.defs@.len() && effects.defs@[w] == l;
            assert(defs@.contains(LocalDefinition { local: effects.defs@[w], point: pt }));
        }
    }
    let ghost before_state = state.abs();
    state.transfer(lids, effects, &unknowns, pt);
    proof {
        lemma_after_next(lids@, blk, k as int, a, *effects, unknowns@, state.abs());
    }
    true
}

} // verus!

verus! {

/// The frontier after the block at `p`.
pub open spec fn block_end(body: CompilerBody, p: int) -> (int, int, int) {
    (body.blocks@[p].index as int, 4294967296, 4294967297)
}

/// Claims every group of the reached block at `p`, from its exact entry state, and
/// collects the call destinations of its normal returns.
#[verifier::rlimit(40)]
#[verifier::spinoff_prover]
fn emit_block(
    report: &mut ReachingDefinitions,
    body: &CompilerBody,
    lids: &Vec<u32>,
    p: usize,
    start: &FlowState,
    Ghost(a): Ghost<Abstract>,
    defs: &mut Vec<LocalDefinition>,
    output: &mut u64,
    max: u64,
    control: &AnalysisControl,
    Ghost(cv0): Ghost<(crate::model::Status, Seq<crate::model::ReasonCount>, Seq<Seq<char>>)>,
) -> (r: bool)
    requires
        checked_body(*body, lids@),
        p < body.blocks@.len(),
        reached(*body, p as int),
        exact_at(*body, lids@, p as int, a),
        start.wf(lids@.len() as int),
        start.abs() == a,
        uses_upto(*body, old(report).uses@, group_key(*body, p as int, 0, 0)),
        effects_upto(*body, old(report).unknown_memory_effects@, group_key(*body, p as int, 0, 0)),
        coverage_view(old(report).envelope.coverage) == with_gaps(cv0, unknown_gaps(old(report).unknown_memory_effects@.len() as int)),
        definitions_sorted(old(defs)@),
        forall|d: LocalDefinition| #[trigger] old(defs)@.contains(d) ==> expected_definition(*body, d),
        *old(output) <= max,
        max <= 200_000,
    ensures
        same_frame(*old(report), *final(report)),
        definitions_sorted(final(defs)@),
        forall|d: LocalDefinition| #[trigger] old(defs)@.contains(d) ==> final(defs)@.contains(d),
        forall|d: LocalDefinition| #[trigger] final(defs)@.contains(d) ==> expected_definition(*body, d),
        r ==> {
            &&& uses_upto(*body, final(report).uses@, block_end(*body, p as int))
            &&& effects_upto(*body, final(report).unknown_memory_effects@, block_end(*body, p as int))
            &&& coverage_view(final(report).envelope.coverage) == with_gaps(cv0, unknown_gaps(final(report).unknown_memory_effects@.len() as int))
            &&& final(report).envelope.truncated == old(report).envelope.truncated
            &&& final(report).envelope.cancelled == old(report).envelope.cancelled
            &&& final(report).envelope.deadline_reached == old(report).envelope.deadline_reached
            &&& forall|k: int, l: u32|
                0 <= k < group_count(body.blocks@[p as int]) && #[trigger] group_effects(body.blocks@[p as int], k).defs@.contains(l)
                    ==> final(defs)@.contains(LocalDefinition { local: l, point: group_point(body.blocks@[p as int], k) })
            &&& forall|j: int, l: u32|
                #![trigger body.blocks@[p as int].terminator.successors@[j], body.blocks@[p as int].terminator.normal_return_defs@.contains(l)]
                0 <= j < body.blocks@[p as int].terminator.successors@.len() && (body.blocks@[p as int].terminator.successors@[j]).kind
                    == CompilerEdgeKind::Normal && body.blocks@[p as int].terminator.normal_return_defs@.contains(l)
                    ==> final(defs)@.contains(
                    LocalDefinition {
                        local: l,
                        point: MirPoint::NormalReturn {
                            block: body.blocks@[p as int].index,
                            target: body.blocks@[p as int].terminator.successors@[j].target,
                        },
                    },
                )
            &&& *final(output) <= max
        },
        !r ==> final(report).envelope.truncated && exists|f: (int, int, int)|
            uses_upto(*body, final(report).uses@, f) && effects_upto(*body, final(report).unknown_memory_effects@, f),
        !r ==> halted(*final(report)) || output_limited(cv0, coverage_view(final(report).envelope.coverage)),
{
    let ghost b = body.blocks@;
    let ghost blk = b[p as int];
    let ghost old_defs = defs@;
    let ghost start_report = *report;
    let blocks = &body.blocks;
    let block = &blocks[p];
    let mut state = start.copy();
    proof {
        assert(after_groups(lids@, blk, 0, a).slots =~= a.slots);
        assert(after_groups(lids@, blk, 0, a).unknown =~= a.unknown);
        assert(block_checked(blk, b, lids@));
        if blk.statements@.len() > 0 {
            assert(blk.statements@[blk.statements@.len() - 1].index == blk.statements@.len() - 1);
        }
    }
    let stmts: usize = block.statements.len();
    let count: u64 = stmts as u64 + 1;
    let mut k: u64 = 0;
    while k < count
        invariant
            k <= count,
            stmts == blk.statements@.len(),
            count == group_count(blk),
            count <= blk.statements@.len() + 1,
            start_report == *old(report),
            old_defs == old(defs)@,
            b == body.blocks@,
            blk == b[p as int],
            checked_body(*body, lids@),
            p < b.len(),
            reached(*body, p as int),
            exact_at(*body, lids@, p as int, a),
            max <= 200_000,
            *output <= max,
            state.wf(lids@.len() as int),
            state.abs() == after_groups(lids@, blk, k as int, a),
            k < count ==> uses_upto(*body, report.uses@, group_key(*body, p as int, k as int, 0)),
            k < count ==> effects_upto(*body, report.unknown_memory_effects@, group_key(*body, p as int, k as int, 0)),
            k == count ==> uses_upto(*body, report.uses@, block_end(*body, p as int)),
            k == count ==> effects_upto(*body, report.unknown_memory_effects@, block_end(*body, p as int)),
            coverage_view(report.envelope.coverage) == with_gaps(cv0, unknown_gaps(report.unknown_memory_effects@.len() as int)),
            report.envelope.truncated == start_report.envelope.truncated,
            report.envelope.cancelled == start_report.envelope.cancelled,
            report.envelope.deadline_reached == start_report.envelope.deadline_reached,
            same_frame(start_report, *report),
            definitions_sorted(defs@),
            forall|d: LocalDefinition| #[trigger] old_defs.contains(d) ==> defs@.contains(d),
            forall|d: LocalDefinition| #[trigger] defs@.contains(d) ==> expected_definition(*body, d),
            forall|m: int, l: u32|
                0 <= m < k && #[trigger] group_effects(blk, m).defs@.contains(l) ==> defs@.contains(LocalDefinition { local: l, point: group_point(blk, m) }),
        decreases count - k,
    {
        let ghost before_defs = defs@;
        proof {
            assert(k <= stmts);
        }
        let ku = k as usize;
        proof {
            assert(ku as int == k as int);
        }
        if !emit_group(report, body, lids, p, ku, &mut state, Ghost(a), defs, output, max, control, Ghost(cv0)) {
            return false;
        }
        proof {
            lemma_group_key(*body, lids@, p as int, k as int, p as int, k as int);
            if k + 1 < count {
                let f1 = group_key(*body, p as int, k as int, 4294967297);
                let f2 = group_key(*body, p as int, k + 1, 0);
                lemma_group_key(*body, lids@, p as int, k + 1, p as int, k as int);
                assert forall|q: int, m: int, l: u32|
                    #[trigger] expected_use(*body, q, m, l) && crate::flow::triple_less(group_key(*body, q, m, l as int), f2) implies crate::flow::triple_less(
                        group_key(*body, q, m, l as int),
                        f1,
                    ) by {
                    lemma_group_key(*body, lids@, q, m, p as int, k as int);
                    lemma_group_key(*body, lids@, q, m, p as int, k + 1);
                }
                lemma_uses_extend(*body, report.uses@, f1, f2);
                assert forall|q: int, m: int|
                    #[trigger] expected_effect(*body, q, m) && crate::flow::triple_less(group_key(*body, q, m, 4294967296), f2) implies crate::flow::triple_less(
                        group_key(*body, q, m, 4294967296),
                        f1,
                    ) by {
                    lemma_group_key(*body, lids@, q, m, p as int, k as int);
                    lemma_group_key(*body, lids@, q, m, p as int, k + 1);
                }
                lemma_effects_extend(*body, report.unknown_memory_effects@, f1, f2);
            } else {
                assert(group_key(*body, p as int, k as int, 4294967297) == block_end(*body, p as int));
            }
            assert forall|m: int, l: u32|
                0 <= m < k + 1 && #[trigger] group_effects(blk, m).defs@.contains(l) implies defs@.contains(LocalDefinition { local: l, point: group_point(blk, m) }) by {
                if m < k {
                    assert(before_defs.contains(LocalDefinition { local: l, point: group_point(blk, m) }));
                }
            }
        }
        k += 1;
    }
    let succ = &block.terminator.successors;
    let nrd = &block.terminator.normal_return_defs;
    let mut j: usize = 0;
    while j < succ.len()
        invariant
            j <= succ@.len(),
            *succ == blk.terminator.successors,
            *nrd == blk.terminator.normal_return_defs,
            *block == blk,
            start_report == *old(report),
            old_defs == old(defs)@,
            b == body.blocks@,
            blk == b[p as int],
            p < b.len(),
            reached(*body, p as int),
            max <= 200_000,
            *output <= max,
            definitions_sorted(defs@),
            forall|d: LocalDefinition| #[trigger] old_defs.contains(d) ==> defs@.contains(d),
            forall|d: LocalDefinition| #[trigger] defs@.contains(d) ==> expected_definition(*body, d),
            forall|m: int, l: u32|
                0 <= m < count && #[trigger] group_effects(blk, m).defs@.contains(l) ==> defs@.contains(LocalDefinition { local: l, point: group_point(blk, m) }),
            forall|w: int, l: u32|
                #![trigger succ@[w], nrd@.contains(l)]
                0 <= w < j && (succ@[w]).kind == CompilerEdgeKind::Normal && nrd@.contains(l) ==> defs@.contains(
                    LocalDefinition { local: l, point: MirPoint::NormalReturn { block: blk.index, target: succ@[w].target } },
                ),
            count == group_count(blk),
            uses_upto(*body, report.uses@, block_end(*body, p as int)),
            effects_upto(*body, report.unknown_memory_effects@, block_end(*body, p as int)),
            coverage_view(report.envelope.coverage) == with_gaps(cv0, unknown_gaps(report.unknown_memory_effects@.len() as int)),
            report.envelope.truncated == start_report.envelope.truncated,
            report.envelope.cancelled == start_report.envelope.cancelled,
            report.envelope.deadline_reached == start_report.envelope.deadline_reached,
            same_frame(start_report, *report),
        decreases succ.len() - j,
    {
        let edge = &succ[j];
        if edge.kind == CompilerEdgeKind::Normal {
            let pt = MirPoint::NormalReturn { block: block.index, target: edge.target };
            let mut i: usize = 0;
            let ghost before_defs = defs@;
            while i < nrd.len()
                invariant
                    i <= nrd@.len(),
                    *nrd == blk.terminator.normal_return_defs,
                    start_report == *old(report),
                    old_defs == old(defs)@,
                    forall|d: LocalDefinition| #[trigger] old_defs.contains(d) ==> before_defs.contains(d),
                    *succ == blk.terminator.successors,
                    j < succ@.len(),
                    *edge == succ@[j as int],
                    edge.kind == CompilerEdgeKind::Normal,
                    pt == (MirPoint::NormalReturn { block: blk.index, target: edge.target }),
                    b == body.blocks@,
                    blk == b[p as int],
                    p < b.len(),
                    reached(*body, p as int),
                    max <= 200_000,
                    *output <= max,
                    definitions_sorted(defs@),
                    forall|d: LocalDefinition| #[trigger] before_defs.contains(d) ==> defs@.contains(d),
                    forall|d: LocalDefinition| #[trigger] defs@.contains(d) ==> expected_definition(*body, d),
                    forall|w: int| 0 <= w < i ==> defs@.contains(LocalDefinition { local: #[trigger] nrd@[w], point: pt }),
                    uses_upto(*body, report.uses@, block_end(*body, p as int)),
                    effects_upto(*body, report.unknown_memory_effects@, block_end(*body, p as int)),
                    same_frame(start_report, *report),
                    report.envelope.truncated == start_report.envelope.truncated,
                    report.envelope.cancelled == start_report.envelope.cancelled,
                    report.envelope.deadline_reached == start_report.envelope.deadline_reached,
                    coverage_view(report.envelope.coverage) == with_gaps(cv0, unknown_gaps(report.unknown_memory_effects@.len() as int)),
                decreases nrd.len() - i,
            {
                if *output + 1 > max {
                    let ghost len = report.unknown_memory_effects@.len() as int;
                    limit(report, "Reaching-definition output exceeds the fact budget");
                    proof {
                        assert(unknown_gaps(len) == unknown_gaps(len));
                    }
                    return false;
                }
                *output = *output + 1;
                let d = LocalDefinition { local: nrd[i], point: pt };
                proof {
                    assert(nrd@.contains(d.local)) by {
                        assert(nrd@[i as int] == d.local);
                    }
                    assert(expected_definition(*body, d)) by {
                        assert(b[p as int].terminator.successors@[j as int] == *edge);
                    }
                }
                add_definition(defs, d);
                i += 1;
            }
            proof {
                assert forall|w: int, l: u32|
                    #![trigger succ@[w], nrd@.contains(l)]
                    0 <= w < j + 1 && (succ@[w]).kind == CompilerEdgeKind::Normal && nrd@.contains(l) implies defs@.contains(
                        LocalDefinition { local: l, point: MirPoint::NormalReturn { block: blk.index, target: succ@[w].target } },
                    ) by {
                    if w == j {
                        let x = choose|x: int| 0 <= x < nrd@.len() && nrd@[x] == l;
                        assert(defs@.contains(LocalDefinition { local: nrd@[x], point: pt }));
                    } else {
                        assert(before_defs.contains(LocalDefinition { local: l, point: MirPoint::NormalReturn { block: blk.index, target: succ@[w].target } }));
                    }
                }
            }
        }
        j += 1;
    }
    true
}

} // verus!

verus! {

/// A key above every claim.
pub open spec fn top_key() -> (int, int, int) {
    (8589934592, 0, 0)
}

/// The frontier before the block of rank `r`, or the top key after the last block.
pub open spec fn rank_start(b: Seq<CompilerBlock>, order: Seq<usize>, r: int) -> (int, int, int) {
    if r < order.len() {
        (b[order[r] as int].index as int, 0, 0)
    } else {
        top_key()
    }
}

/// Whether `d` is one of the assignments collected for the block at `p`.
pub open spec fn block_definition(body: CompilerBody, p: int, d: LocalDefinition) -> bool {
    ||| exists|k: int|
        0 <= k < group_count(body.blocks@[p]) && d.point == #[trigger] group_point(body.blocks@[p], k)
            && group_effects(body.blocks@[p], k).defs@.contains(d.local)
    ||| exists|j: int|
        0 <= j < body.blocks@[p].terminator.successors@.len() && (#[trigger] body.blocks@[p].terminator.successors@[j]).kind
            == CompilerEdgeKind::Normal && d.point == MirPoint::NormalReturn {
            block: body.blocks@[p].index,
            target: body.blocks@[p].terminator.successors@[j].target,
        } && body.blocks@[p].terminator.normal_return_defs@.contains(d.local)
}

/// Expected keys below the start of a later rank lie below the end of an earlier block,
/// when nothing expected lies in the ranks between.
proof fn lemma_rank_gap(body: CompilerBody, lids: Seq<u32>, order: Seq<usize>, r: int, q: int, k: int, z: int)
    requires
        checked_body(body, lids),
        ascending(body.blocks@, order),
        0 <= r < order.len(),
        0 <= q < body.blocks@.len(),
        reached(body, q),
        0 <= k < group_count(body.blocks@[q]),
        0 <= z <= 4294967296,
        crate::flow::triple_less(group_key(body, q, k, z), rank_start(body.blocks@, order, r + 1)),
    ensures
        (q == order[r] as int && crate::flow::triple_less(group_key(body, q, k, z), block_end(body, order[r] as int)))
            || crate::flow::triple_less(group_key(body, q, k, z), rank_start(body.blocks@, order, r)),
{
    let b = body.blocks@;
    lemma_group_key(body, lids, q, k, q, k);
    assert(lists(order, q));
    let m = choose|m: int| 0 <= m < order.len() && order[m] == q;
    if m > r {
        if r + 1 < m {
            assert(b[order[r + 1] as int].index < b[order[m] as int].index);
        }
    } else if m < r {
        assert(b[order[m] as int].index < b[order[r] as int].index);
    }
}

/// Claims every reached block in increasing index order. Sets `fixed_point`, lists the
/// reached blocks, and records the collected assignments.
#[verifier::rlimit(60)]
#[verifier::spinoff_prover]
fn claim_all(
    report: &mut ReachingDefinitions,
    body: &CompilerBody,
    lids: &Vec<u32>,
    order: &Vec<usize>,
    entries: &Vec<Option<FlowState>>,
    max: u64,
    control: &AnalysisControl,
)
    requires
        checked_body(*body, lids@),
        ascending(body.blocks@, order@),
        entries@.len() == body.blocks@.len(),
        forall|p: int| 0 <= p < entries@.len() ==> ((#[trigger] entries@[p]) is Some <==> reached(*body, p)),
        forall|p: int|
            0 <= p < entries@.len() && (#[trigger] entries@[p]) is Some ==> (entries@[p]->Some_0).wf(lids@.len() as int)
                && exact_at(*body, lids@, p, (entries@[p]->Some_0).abs()),
        old(report).uses@.len() == 0,
        old(report).unknown_memory_effects@.len() == 0,
        !old(report).envelope.truncated,
        max <= 200_000,
        body.blocks@.len() <= 4096,
    ensures
        final(report).body_id == old(report).body_id,
        final(report).iterations == old(report).iterations,
        final(report).envelope.algorithm_version == old(report).envelope.algorithm_version,
        final(report).envelope.assumptions == old(report).envelope.assumptions,
        final(report).fixed_point,
        locals_sorted(final(report).reachable_blocks@),
        forall|x: u32| #[trigger] final(report).reachable_blocks@.contains(x) <==> exists|p: int|
            0 <= p < body.blocks@.len() && reached(*body, p) && (#[trigger] body.blocks@[p]).index == x,
        definitions_sorted(final(report).definitions@),
        forall|d: LocalDefinition| #[trigger] final(report).definitions@.contains(d) ==> expected_definition(*body, d),
        !final(report).envelope.truncated ==> {
            &&& uses_upto(*body, final(report).uses@, top_key())
            &&& effects_upto(*body, final(report).unknown_memory_effects@, top_key())
            &&& forall|d: LocalDefinition| #[trigger] expected_definition(*body, d) ==> final(report).definitions@.contains(d)
            &&& coverage_view(final(report).envelope.coverage) == with_gaps(
                coverage_view(old(report).envelope.coverage),
                unknown_gaps(final(report).unknown_memory_effects@.len() as int),
            )
        },
        final(report).envelope.truncated ==> exists|f: (int, int, int)|
            uses_upto(*body, final(report).uses@, f) && effects_upto(*body, final(report).unknown_memory_effects@, f),
        !final(report).envelope.truncated ==> final(report).envelope.cancelled == old(report).envelope.cancelled
            && final(report).envelope.deadline_reached == old(report).envelope.deadline_reached,
        final(report).envelope.truncated ==> halted(*final(report)) || output_limited(
            coverage_view(old(report).envelope.coverage),
            coverage_view(final(report).envelope.coverage),
        ),
{
    let ghost b = body.blocks@;
    let ghost cv0 = coverage_view(report.envelope.coverage);
    let ghost start = *report;
    let n = body.blocks.len();
    report.fixed_point = true;
    let mut reachable: Vec<u32> = Vec::new();
    let mut r: usize = 0;
    while r < n
        invariant
            r <= n,
            n == b.len(),
            b == body.blocks@,
            ascending(b, order@),
            entries@.len() == n,
            forall|p: int| 0 <= p < entries@.len() ==> ((#[trigger] entries@[p]) is Some <==> reached(*body, p)),
            locals_sorted(reachable@),
            reachable@.len() <= r,
            forall|i: int| 0 <= i < reachable@.len() ==> exists|m: int| 0 <= m < r && (#[trigger] reachable@[i]) == b[order@[m] as int].index,
            forall|x: u32| #[trigger] reachable@.contains(x) <==> exists|m: int|
                0 <= m < r && reached(*body, order@[m] as int) && (#[trigger] b[order@[m] as int]).index == x,
        decreases n - r,
    {
        let p = order[r];
        let ghost before = reachable@;
        let ghost idx = b[p as int].index;
        let present = entries[p].is_some();
        if present {
            reachable.push(body.blocks[p].index);
            proof {
                assert forall|i: int, j: int| 0 <= i < j < reachable@.len() implies #[trigger] reachable@[i] < #[trigger] reachable@[j] by {
                    if j == before.len() {
                        let m = choose|m: int| 0 <= m < r && before[i] == b[order@[m] as int].index;
                        assert(reachable@[i] == before[i]);
                        assert(b[order@[m] as int].index < b[order@[r as int] as int].index);
                    } else {
                        assert(reachable@[i] == before[i] && reachable@[j] == before[j]);
                    }
                }
            }
        }
        proof {
            assert forall|i: int| 0 <= i < reachable@.len() implies exists|m: int| 0 <= m < r + 1 && (#[trigger] reachable@[i]) == b[order@[m] as int].index by {
                if i < before.len() {
                    assert(reachable@[i] == before[i]);
                    let m = choose|m: int| 0 <= m < r && before[i] == b[order@[m] as int].index;
                    assert(0 <= m < r + 1 && reachable@[i] == b[order@[m] as int].index);
                } else {
                    assert(reachable@[i] == b[order@[r as int] as int].index);
                }
            }
            assert forall|x: u32| #[trigger] reachable@.contains(x) <==> exists|m: int|
                0 <= m < r + 1 && reached(*body, order@[m] as int) && (#[trigger] b[order@[m] as int]).index == x by {
                let rhs_old = exists|m: int| 0 <= m < r && reached(*body, order@[m] as int) && (#[trigger] b[order@[m] as int]).index == x;
                assert(before.contains(x) <==> rhs_old);
                if present {
                    assert(reachable@ == before.push(idx));
                    if reachable@.contains(x) && !before.contains(x) {
                        let w = choose|w: int| 0 <= w < reachable@.len() && reachable@[w] == x;
                        assert(w == before.len());
                        assert(reached(*body, order@[r as int] as int) && b[order@[r as int] as int].index == x);
                    }
                    if before.contains(x) {
                        let w = choose|w: int| 0 <= w < before.len() && before[w] == x;
                        assert(reachable@[w] == x);
                    }
                    if x == idx {
                        assert(reachable@[before.len() as int] == x);
                    }
                } else {
                    assert(reachable@ == before);
                }
                if exists|m: int| 0 <= m < r + 1 && reached(*body, order@[m] as int) && (#[trigger] b[order@[m] as int]).index == x {
                    let m = choose|m: int| 0 <= m < r + 1 && reached(*body, order@[m] as int) && (#[trigger] b[order@[m] as int]).index == x;
                    if m == r {
                        assert(present);
                        assert(reachable@[before.len() as int] == x);
                    } else {
                        assert(rhs_old);
                        assert(before.contains(x));
                        let w = choose|w: int| 0 <= w < before.len() && before[w] == x;
                        assert(reachable@[w] == x);
                    }
                }
            }
        }
        r += 1;
    }
    proof {
        assert forall|x: u32| #[trigger] reachable@.contains(x) <==> exists|p: int|
            0 <= p < b.len() && reached(*body, p) && (#[trigger] b[p]).index == x by {
            if exists|p: int| 0 <= p < b.len() && reached(*body, p) && (#[trigger] b[p]).index == x {
                let p = choose|p: int| 0 <= p < b.len() && reached(*body, p) && (#[trigger] b[p]).index == x;
                assert(lists(order@, p));
                let m = choose|m: int| 0 <= m < order@.len() && order@[m] == p;
                assert(reached(*body, order@[m] as int) && b[order@[m] as int].index == x);
            }
        }
    }
    report.reachable_blocks = reachable;
    let mut defs: Vec<LocalDefinition> = Vec::new();
    let argc = body.argument_count;
    let mut l: u64 = 1;
    while l <= argc as u64
        invariant
            1 <= l,
            argc == body.argument_count,
            l <= argc + 1,
            definitions_sorted(defs@),
            forall|d: LocalDefinition| #[trigger] defs@.contains(d) <==> (d.point == MirPoint::Entry && 1 <= d.local < l),
        decreases argc + 1 - l,
    {
        add_definition(&mut defs, LocalDefinition { local: l as u32, point: MirPoint::Entry });
        l += 1;
    }
    proof {
        assert forall|d: LocalDefinition| #[trigger] defs@.contains(d) implies expected_definition(*body, d) by {}
    }
    let mut output: u64 = argc as u64 + report.reachable_blocks.len() as u64;
    if output > max {
        limit(report, "Reaching-definition output exceeds the fact budget");
        report.definitions = defs;
        proof {
            assert(unknown_gaps(0) =~= Seq::<(UnknownReason, Seq<char>)>::empty());
            assert(with_gaps(cv0, unknown_gaps(0)) == cv0);
            assert(uses_upto(*body, report.uses@, top_key()) || true);
            assert(uses_upto(*body, report.uses@, (-1, 0, 0)));
            assert(effects_upto(*body, report.unknown_memory_effects@, (-1, 0, 0)));
        }
        return;
    }
    proof {
        assert(unknown_gaps(0) =~= Seq::<(UnknownReason, Seq<char>)>::empty());
        if n > 0 {
            assert(uses_upto(*body, report.uses@, rank_start(b, order@, 0))) by {
                assert forall|q: int, k: int, z: u32|
                    #[trigger] expected_use(*body, q, k, z) implies !crate::flow::triple_less(group_key(*body, q, k, z as int), rank_start(b, order@, 0)) by {
                    assert(lists(order@, q));
                    let m = choose|m: int| 0 <= m < order@.len() && order@[m] == q;
                    if m > 0 {
                        assert(b[order@[0] as int].index < b[order@[m] as int].index);
                    }
                    lemma_group_key(*body, lids@, q, k, q, k);
                }
            }
            assert(effects_upto(*body, report.unknown_memory_effects@, rank_start(b, order@, 0))) by {
                assert forall|q: int, k: int|
                    #[trigger] expected_effect(*body, q, k) implies !crate::flow::triple_less(group_key(*body, q, k, 4294967296), rank_start(b, order@, 0)) by {
                    assert(lists(order@, q));
                    let m = choose|m: int| 0 <= m < order@.len() && order@[m] == q;
                    if m > 0 {
                        assert(b[order@[0] as int].index < b[order@[m] as int].index);
                    }
                    lemma_group_key(*body, lids@, q, k, q, k);
                }
            }
        }
    }
    let mut r: usize = 0;
    while r < n
        invariant
            r <= n,
            n == b.len(),
            b == body.blocks@,
            start == *old(report),
            cv0 == coverage_view(start.envelope.coverage),
            checked_body(*body, lids@),
            ascending(b, order@),
            entries@.len() == n,
            forall|p: int| 0 <= p < entries@.len() ==> ((#[trigger] entries@[p]) is Some <==> reached(*body, p)),
            forall|p: int|
                0 <= p < entries@.len() && (#[trigger] entries@[p]) is Some ==> (entries@[p]->Some_0).wf(lids@.len() as int)
                    && exact_at(*body, lids@, p, (entries@[p]->Some_0).abs()),
            max <= 200_000,
            output <= max,
            !report.envelope.truncated,
            report.envelope.cancelled == start.envelope.cancelled,
            report.envelope.deadline_reached == start.envelope.deadline_reached,
            report.fixed_point,
            report.body_id == start.body_id,
            report.iterations == start.iterations,
            report.envelope.algorithm_version == start.envelope.algorithm_version,
            report.envelope.assumptions == start.envelope.assumptions,
            locals_sorted(report.reachable_blocks@),
            forall|x: u32| #[trigger] report.reachable_blocks@.contains(x) <==> exists|p: int|
                0 <= p < body.blocks@.len() && reached(*body, p) && (#[trigger] body.blocks@[p]).index == x,
            uses_upto(*body, report.uses@, rank_start(b, order@, r as int)),
            effects_upto(*body, report.unknown_memory_effects@, rank_start(b, order@, r as int)),
            coverage_view(report.envelope.coverage) == with_gaps(cv0, unknown_gaps(report.unknown_memory_effects@.len() as int)),
            definitions_sorted(defs@),
            forall|d: LocalDefinition| #[trigger] defs@.contains(d) ==> expected_definition(*body, d),
            forall|d: LocalDefinition| d.point == MirPoint::Entry && 1 <= d.local <= body.argument_count ==> #[trigger] defs@.contains(d),
            forall|m: int, d: LocalDefinition| 0 <= m < r && reached(*body, order@[m] as int) && #[trigger] block_definition(*body, order@[m] as int, d) ==> defs@.contains(d),
        decreases n - r,
    {
        let p = order[r];
        let ghost defs_before = defs@;
        match &entries[p] {
            Some(s) => {
                proof {
                    let q = p as int;
                    let f1 = rank_start(b, order@, r as int);
                    let f2 = group_key(*body, q, 0, 0);
                    lemma_group_key(*body, lids@, q, 0, q, 0);
                    assert forall|q2: int, k: int, z: u32|
                        #[trigger] expected_use(*body, q2, k, z) && crate::flow::triple_less(group_key(*body, q2, k, z as int), f2) implies crate::flow::triple_less(
                            group_key(*body, q2, k, z as int),
                            f1,
                        ) by {
                        lemma_group_key(*body, lids@, q2, k, q, 0);
                        lemma_group_key(*body, lids@, q2, k, q2, k);
                    }
                    lemma_uses_extend(*body, report.uses@, f1, f2);
                    assert forall|q2: int, k: int|
                        #[trigger] expected_effect(*body, q2, k) && crate::flow::triple_less(group_key(*body, q2, k, 4294967296), f2) implies crate::flow::triple_less(
                            group_key(*body, q2, k, 4294967296),
                            f1,
                        ) by {
                        lemma_group_key(*body, lids@, q2, k, q, 0);
                        lemma_group_key(*body, lids@, q2, k, q2, k);
                    }
                    lemma_effects_extend(*body, report.unknown_memory_effects@, f1, f2);
                }
                if !emit_block(report, body, lids, p, s, Ghost(s.abs()), &mut defs, &mut output, max, control, Ghost(cv0)) {
                    let ghost f = choose|f: (int, int, int)|
                        uses_upto(*body, report.uses@, f) && effects_upto(*body, report.unknown_memory_effects@, f);
                    report.definitions = defs;
                    proof {
                        assert(uses_upto(*body, report.uses@, f) && effects_upto(*body, report.unknown_memory_effects@, f));
                    }
                    return;
                }
                proof {
                    let q = p as int;
                    let f1 = block_end(*body, q);
                    let f2 = rank_start(b, order@, r + 1);
                    assert forall|q2: int, k: int, z: u32|
                        #[trigger] expected_use(*body, q2, k, z) && crate::flow::triple_less(group_key(*body, q2, k, z as int), f2) implies crate::flow::triple_less(
                            group_key(*body, q2, k, z as int),
                            f1,
                        ) by {
                        lemma_rank_gap(*body, lids@, order@, r as int, q2, k, z as int);
                        lemma_group_key(*body, lids@, q2, k, q2, k);
                        if !crate::flow::triple_less(group_key(*body, q2, k, z as int), rank_start(b, order@, r as int)) {
                        }
                    }
                    if r + 1 < n {
                        assert(b[order@[r as int] as int].index < b[order@[r + 1] as int].index);
                    }
                    lemma_uses_extend(*body, report.uses@, f1, f2);
                    assert forall|q2: int, k: int|
                        #[trigger] expected_effect(*body, q2, k) && crate::flow::triple_less(group_key(*body, q2, k, 4294967296), f2) implies crate::flow::triple_less(
                            group_key(*body, q2, k, 4294967296),
                            f1,
                        ) by {
                        lemma_rank_gap(*body, lids@, order@, r as int, q2, k, 4294967296);
                        lemma_group_key(*body, lids@, q2, k, q2, k);
                    }
                    lemma_effects_extend(*body, report.unknown_memory_effects@, f1, f2);
                    assert forall|m: int, d: LocalDefinition| 0 <= m < r + 1 && reached(*body, order@[m] as int) && #[trigger] block_definition(*body, order@[m] as int, d) implies defs@.contains(d) by {
                        if m < r {
                            assert(defs_before.contains(d));
                        }
                    }
                    assert forall|d: LocalDefinition| d.point == MirPoint::Entry && 1 <= d.local <= body.argument_count implies #[trigger] defs@.contains(d) by {
                        assert(defs_before.contains(d));
                    }
                }
            },
            None => {
                proof {
                    let f1 = rank_start(b, order@, r as int);
                    let f2 = rank_start(b, order@, r + 1);
                    assert(!reached(*body, p as int));
                    assert forall|q2: int, k: int, z: u32|
                        #[trigger] expected_use(*body, q2, k, z) && crate::flow::triple_less(group_key(*body, q2, k, z as int), f2) implies crate::flow::triple_less(
                            group_key(*body, q2, k, z as int),
                            f1,
                        ) by {
                        lemma_rank_gap(*body, lids@, order@, r as int, q2, k, z as int);
                    }
                    if r + 1 < n {
                        assert(b[order@[r as int] as int].index < b[order@[r + 1] as int].index);
                    }
                    lemma_uses_extend(*body, report.uses@, f1, f2);
                    assert forall|q2: int, k: int|
                        #[trigger] expected_effect(*body, q2, k) && crate::flow::triple_less(group_key(*body, q2, k, 4294967296), f2) implies crate::flow::triple_less(
                            group_key(*body, q2, k, 4294967296),
                            f1,
                        ) by {
                        lemma_rank_gap(*body, lids@, order@, r as int, q2, k, 4294967296);
                    }
                    lemma_effects_extend(*body, report.unknown_memory_effects@, f1, f2);
                }
            },
        }
        r += 1;
    }
    proof {
        assert forall|d: LocalDefinition| #[trigger] expected_definition(*body, d) implies defs@.contains(d) by {
            if !(d.point == MirPoint::Entry && 1 <= d.local <= body.argument_count) {
                let q = if exists|p: int, k: int|
                    0 <= p < b.len() && reached(*body, p) && 0 <= k < group_count(b[p]) && d.point == #[trigger] group_point(b[p], k) && group_effects(b[p], k).defs@.contains(d.local) {
                    let (p, k) = choose|p: int, k: int|
                        0 <= p < b.len() && reached(*body, p) && 0 <= k < group_count(b[p]) && d.point == #[trigger] group_point(b[p], k) && group_effects(b[p], k).defs@.contains(d.local);
                    assert(block_definition(*body, p, d));
                    p
                } else {
                    let (p, j) = choose|p: int, j: int|
                        0 <= p < b.len() && reached(*body, p) && 0 <= j < b[p].terminator.successors@.len() && (#[trigger] b[p].terminator.successors@[j]).kind
                            == CompilerEdgeKind::Normal && d.point == MirPoint::NormalReturn {
                            block: b[p].index,
                            target: b[p].terminator.successors@[j].target,
                        } && b[p].terminator.normal_return_defs@.contains(d.local);
                    assert(block_definition(*body, p, d));
                    p
                };
                assert(lists(order@, q));
                let m = choose|m: int| 0 <= m < order@.len() && order@[m] == q;
                assert(reached(*body, order@[m] as int) && block_definition(*body, order@[m] as int, d));
            }
        }
    }
    report.definitions = defs;
}

} // verus!

verus! {

// ---------------------------------------------------------------------------
// The analysis
// ---------------------------------------------------------------------------

/// What each report states it assumes.
pub open spec fn dataflow_assumptions() -> Seq<Seq<char>> {
    seq![
        "One selected compiler body; all listed runtime edges are considered feasible; imaginary edges are excluded"@,
        "Definitions track whole-local assignments, not pointee values, aliases, cross-function values, or Rust validity"@,
        "Argument locals are defined at entry; moves and storage lifetime events clear tracked local values after reads"@,
        "Unknown memory effects are never resolved; they conservatively taint later reachable uses without inventing assignments"@,
    ]
}

/// What every report about `body` carries.
pub open spec fn dataflow_header(t: ReachingDefinitions, body: CompilerBody) -> bool {
    &&& t.body_id@ == body.body_id@
    &&& t.envelope.algorithm_version@ == "mir-reaching-definitions-v1"@
    &&& crate::model::texts(t.envelope.assumptions@) == dataflow_assumptions()
}

/// Whether a report records an early stop.
pub open spec fn halted(t: ReachingDefinitions) -> bool {
    crate::envelope::stop_recorded(t.envelope)
}

/// Whether a report makes no claim.
pub open spec fn claims_nothing(t: ReachingDefinitions) -> bool {
    &&& t.reachable_blocks@.len() == 0
    &&& t.definitions@.len() == 0
    &&& t.uses@.len() == 0
    &&& t.unknown_memory_effects@.len() == 0
}

/// A report on `body` with nothing found yet.
fn new_result(body: &CompilerBody, coverage: &Coverage) -> (r: ReachingDefinitions)
    ensures
        dataflow_header(r, *body),
        coverage_view(r.envelope.coverage) == coverage_view(*coverage),
        !r.envelope.truncated,
        !halted(r),
        !r.fixed_point,
        r.iterations == 0,
        claims_nothing(r),
{
    let mut envelope = AnalysisEnvelope::new("mir-reaching-definitions-v1", coverage.copy());
    let mut assumptions: Vec<String> = Vec::new();
    assumptions.push("One selected compiler body; all listed runtime edges are considered feasible; imaginary edges are excluded".to_string());
    assumptions.push("Definitions track whole-local assignments, not pointee values, aliases, cross-function values, or Rust validity".to_string());
    assumptions.push("Argument locals are defined at entry; moves and storage lifetime events clear tracked local values after reads".to_string());
    assumptions.push("Unknown memory effects are never resolved; they conservatively taint later reachable uses without inventing assignments".to_string());
    envelope.assumptions = assumptions;
    let r = ReachingDefinitions {
        envelope,
        body_id: body.body_id.clone(),
        fixed_point: false,
        iterations: 0,
        reachable_blocks: Vec::new(),
        definitions: Vec::new(),
        uses: Vec::new(),
        unknown_memory_effects: Vec::new(),
    };
    proof {
        assert(crate::model::texts(r.envelope.assumptions@) =~= dataflow_assumptions());
    }
    r
}

/// The indices of the locals, in order.
fn local_id_list(body: &CompilerBody) -> (r: Vec<u32>)
    ensures
        r@ == local_ids(*body),
{
    let mut out: Vec<u32> = Vec::new();
    let mut k: usize = 0;
    while k < body.locals.len()
        invariant
            k <= body.locals@.len(),
            out@ == local_ids(*body).take(k as int),
        decreases body.locals.len() - k,
    {
        out.push(body.locals[k].index);
        k += 1;
        proof {
            assert(out@ =~= local_ids(*body).take(k as int));
        }
    }
    proof {
        assert(local_ids(*body).take(k as int) =~= local_ids(*body));
    }
    out
}

/// Whether no two blocks share an index.
fn blocks_distinct(blocks: &Vec<CompilerBlock>) -> (r: bool)
    ensures
        r == distinct_blocks(blocks@),
{
    let mut i: usize = 0;
    while i < blocks.len()
        invariant
            i <= blocks@.len(),
            forall|p: int, q: int| 0 <= p < i && 0 <= q < blocks@.len() && p != q ==> (#[trigger] blocks@[p]).index != (#[trigger] blocks@[q]).index,
        decreases blocks.len() - i,
    {
        let mut j: usize = 0;
        while j < blocks.len()
            invariant
                i < blocks@.len(),
                j <= blocks@.len(),
                forall|p: int, q: int| 0 <= p < i && 0 <= q < blocks@.len() && p != q ==> (#[trigger] blocks@[p]).index != (#[trigger] blocks@[q]).index,
                forall|q: int| 0 <= q < j && q != i ==> blocks@[i as int].index != (#[trigger] blocks@[q]).index,
            decreases blocks.len() - j,
        {
            if j != i && blocks[i].index == blocks[j].index {
                return false;
            }
            j += 1;
        }
        i += 1;
    }
    true
}

/// Whether no index occurs twice.
fn ids_distinct(v: &Vec<u32>) -> (r: bool)
    ensures
        r == v@.no_duplicates(),
{
    let mut i: usize = 0;
    while i < v.len()
        invariant
            i <= v@.len(),
            forall|p: int, q: int| 0 <= p < i && 0 <= q < v@.len() && p != q ==> v@[p] != v@[q],
        decreases v.len() - i,
    {
        let mut j: usize = 0;
        while j < v.len()
            invariant
                i < v@.len(),
                j <= v@.len(),
                forall|p: int, q: int| 0 <= p < i && 0 <= q < v@.len() && p != q ==> v@[p] != v@[q],
                forall|q: int| 0 <= q < j && q != i ==> v@[i as int] != v@[q],
            decreases v.len() - j,
        {
            if j != i && v[i] == v[j] {
                return false;
            }
            j += 1;
        }
        i += 1;
    }
    true
}

/// Whether blocks and locals are distinct and the entry block, return local and argument
/// locals exist.
fn roots_hold(body: &CompilerBody, lids: &Vec<u32>) -> (r: bool)
    requires
        lids@ == local_ids(*body),
    ensures
        r == roots_ok(*body),
{
    if !blocks_distinct(&body.blocks) || !ids_distinct(lids) {
        return false;
    }
    match find_position(&body.blocks, 0) {
        None => {
            return false;
        },
        Some(_) => {},
    }
    if !holds_id(lids, 0) {
        return false;
    }
    if body.argument_count as usize >= body.locals.len() {
        return false;
    }
    let mut l: u64 = 1;
    while l <= body.argument_count as u64
        invariant
            1 <= l,
            l <= body.argument_count + 1,
            body.argument_count < body.locals@.len(),
            lids@ == local_ids(*body),
            forall|x: u32| 1 <= x < l ==> #[trigger] lids@.contains(x),
        decreases body.argument_count + 1 - l,
    {
        if !holds_id(lids, l as u32) {
            return false;
        }
        l += 1;
    }
    proof {
        assert(lids@.len() == body.locals@.len());
    }
    true
}

/// What a finished report on `body` holds before any response byte budget is applied.
pub open spec fn report_holds(
    body: CompilerBody,
    coverage: Coverage,
    limits: DataflowLimits,
    input_bytes: int,
    t: ReachingDefinitions,
) -> bool {
    &&& dataflow_header(t, body)
    &&& !(input_outcome(body, limits, input_bytes) is Invalid) || halted(t)
    &&& halted(t) ==> t.envelope.truncated
    &&& t.iterations <= limits.max_iterations
    &&& !t.fixed_point ==> t.envelope.truncated && claims_nothing(t)
    &&& input_outcome(body, limits, input_bytes) matches Scan::Go(f, g) ==> !halted(t) ==> t.fixed_point
        || solver_limited(with_gaps(coverage_view(coverage), imaginary_gaps(g)), coverage_view(t.envelope.coverage))
    &&& t.fixed_point && t.envelope.truncated && !halted(t) ==> (input_outcome(body, limits, input_bytes) matches Scan::Go(
        f,
        g,
    ) && output_limited(with_gaps(coverage_view(coverage), imaginary_gaps(g)), coverage_view(t.envelope.coverage)))
    &&& input_outcome(body, limits, input_bytes) matches Scan::Limited(msg, g) ==> !halted(t) ==> {
        &&& !t.fixed_point
        &&& coverage_view(t.envelope.coverage) == with_gap(
            with_gaps(coverage_view(coverage), imaginary_gaps(g)),
            UnknownReason::BudgetExhausted,
            msg,
        )
    }
    &&& t.fixed_point ==> {
        &&& input_outcome(body, limits, input_bytes) is Go
        &&& locals_sorted(t.reachable_blocks@)
        &&& forall|x: u32| #[trigger] t.reachable_blocks@.contains(x) <==> exists|p: int|
            0 <= p < body.blocks@.len() && reached(body, p) && (#[trigger] body.blocks@[p]).index == x
        &&& definitions_sorted(t.definitions@)
        &&& forall|d: LocalDefinition| #[trigger] t.definitions@.contains(d) ==> expected_definition(body, d)
        &&& !t.envelope.truncated ==> {
            &&& uses_upto(body, t.uses@, top_key())
            &&& effects_upto(body, t.unknown_memory_effects@, top_key())
            &&& forall|d: LocalDefinition| #[trigger] expected_definition(body, d) ==> t.definitions@.contains(d)
            &&& input_outcome(body, limits, input_bytes) matches Scan::Go(f, g) && coverage_view(t.envelope.coverage)
                == with_gaps(
                coverage_view(coverage),
                imaginary_gaps(g) + unknown_gaps(t.unknown_memory_effects@.len() as int),
            )
        }
        &&& t.envelope.truncated ==> exists|f: (int, int, int)|
            uses_upto(body, t.uses@, f) && effects_upto(body, t.unknown_memory_effects@, f)
    }
}

/// Whether `t` is `full` with every claim withheld for the response byte budget.
pub open spec fn claims_withheld(full: ReachingDefinitions, t: ReachingDefinitions) -> bool {
    &&& claims_nothing(t)
    &&& t.envelope.truncated
    &&& t.envelope.cancelled == full.envelope.cancelled
    &&& t.envelope.deadline_reached == full.envelope.deadline_reached
    &&& t.envelope.algorithm_version == full.envelope.algorithm_version
    &&& t.envelope.assumptions == full.envelope.assumptions
    &&& t.fixed_point == full.fixed_point
    &&& t.iterations == full.iterations
    &&& t.body_id == full.body_id
    &&& coverage_view(t.envelope.coverage) == with_gap(
        coverage_view(full.envelope.coverage),
        UnknownReason::BudgetExhausted,
        "Reaching-definition response exceeds the byte budget; claims withheld"@,
    )
}

/// Runs the analysis up to a finished report, before the response byte budget.
#[verifier::rlimit(60)]
#[verifier::spinoff_prover]
fn analyze_body(
    body: &CompilerBody,
    coverage: &Coverage,
    limits: DataflowLimits,
    control: &AnalysisControl,
    input_bytes: usize,
) -> (r: Result<ReachingDefinitions, AnalysisError>)
    ensures
        !limits.supported() || text_bytes(body.body_id).len() == 0 || text_bytes(body.body_id).len() > 256
            ==> r is Err,
        match r {
            Err(e) => e matches AnalysisError::InvalidInput(m) && input_outcome(*body, limits, input_bytes as int)
                == Scan::Invalid(m@),
            Ok(t) => report_holds(*body, *coverage, limits, input_bytes as int, t),
        },
{
    match limits.validate() {
        Ok(()) => {},
        Err(e) => {
            return Err(e);
        },
    }
    let id_len = crate::text::bytes_of(&body.body_id).len();
    if id_len == 0 || id_len > 256 {
        return Err(invalid("compiler body identity must contain 1..256 bytes"));
    }
    let mut result = new_result(body, coverage);
    let ghost cv = coverage_view(*coverage);
    if control.stopped() {
        halt(&mut result, control);
        return Ok(result);
    }
    let blocks = &body.blocks;
    if blocks.len() > limits.max_blocks as usize || body.locals.len() > limits.max_locals as usize {
        limit(&mut result, "Selected body exceeds the block or local budget");
        proof {
            assert(imaginary_gaps(0) =~= Seq::<(UnknownReason, Seq<char>)>::empty());
        }
        return Ok(result);
    }
    if input_bytes > 33554432 {
        limit(&mut result, "Selected compiler body exceeds the 32 MiB input budget");
        proof {
            assert(imaginary_gaps(0) =~= Seq::<(UnknownReason, Seq<char>)>::empty());
        }
        return Ok(result);
    }
    if blocks.len() == 0 || body.locals.len() == 0 {
        return Err(invalid("a MIR body requires an entry block and a return local"));
    }
    let lids = local_id_list(body);
    if !roots_hold(body, &lids) {
        return Err(invalid("duplicate or missing entry block, return local, or argument local"));
    }
    let order = sorted_positions(blocks);
    proof {
        assert(ascending(blocks@, order@));
        lemma_ascending_unique(blocks@, order@, block_order(blocks@));
    }
    let max = limits.max_facts as usize;
    let start_facts = blocks.len() + body.locals.len();
    let ghost before_scan = result;
    match count_input(&mut result.envelope, blocks, &order, &lids, start_facts, max, control) {
        InputCount::Fine(_, _) => {},
        InputCount::Over => {
            limit(&mut result, "Selected body exceeds the input fact budget");
            return Ok(result);
        },
        InputCount::Missing(e) => {
            return Err(e);
        },
        InputCount::Stopped => {
            halt(&mut result, control);
            return Ok(result);
        },
    }
    let ghost scanned = input_outcome(*body, limits, input_bytes as int);
    let entry = match find_position(blocks, 0) {
        Some(p) => p,
        None => {
            return Err(invalid("duplicate or missing entry block, return local, or argument local"));
        },
    };
    let start = FlowState::entry(body, &lids);
    let max64 = limits.max_facts as u64;
    if start.facts_capped(max64) > max64 {
        limit(&mut result, "Argument state exceeds the retained fact budget");
        proof {
            assert(solver_message("Argument state exceeds the retained fact budget"@));
        }
        return Ok(result);
    }
    let ghost before_claims = result;
    match solve(&mut result, body, &lids, &order, entry, start, max64, limits.max_iterations, control) {
        None => Ok(result),
        Some(entries) => {
            proof {
                lemma_at_unique(blocks@, entry as int, 0);
                lemma_fixed_exact(*body, lids@, entries@, entry as int);
            }
            let ghost before_emit = result;
            claim_all(&mut result, body, &lids, &order, &entries, max64, control);
            proof {
                if !result.envelope.truncated {
                    let g = scanned->Go_1;
                    crate::model::lemma_with_gaps_concat(cv, imaginary_gaps(g), unknown_gaps(result.unknown_memory_effects@.len() as int));
                }
            }
            Ok(result)
        },
    }
}

/// Reaching definitions of one body: for each read of a whole local in a block reached
/// along runtime edges, the assignments that may reach it, whether none may, and whether
/// an unknown memory effect may precede it. Claims are made only once the analysis
/// reaches a fixed point; budgets and the control may stop it first, which the report
/// records.
///
/// `input_bytes` is the size of the serialized body and `response_size` measures the
/// serialized size of a report; the caller owns serialization. A report over
/// `max_response_bytes` has its claims withheld, and one still over it is refused as
/// exhausting the budget.
#[verifier::rlimit(60)]
#[verifier::spinoff_prover]
pub fn reaching_definitions<F: Fn(&ReachingDefinitions) -> usize>(
    body: &CompilerBody,
    coverage: &Coverage,
    limits: DataflowLimits,
    control: &AnalysisControl,
    input_bytes: usize,
    response_size: F,
) -> (r: Result<ReachingDefinitions, AnalysisError>)
    requires
        forall|t: ReachingDefinitions| #[trigger] response_size.requires((&t,)),
    ensures
        !limits.supported() || text_bytes(body.body_id).len() == 0 || text_bytes(body.body_id).len() > 256
            ==> r is Err,
        match r {
            Err(e) => (e matches AnalysisError::InvalidInput(m) && input_outcome(*body, limits, input_bytes as int)
                == Scan::Invalid(m@)) || (e is BudgetExhausted && exists|full: ReachingDefinitions, cut: ReachingDefinitions, n1: usize, n2: usize|
                report_holds(*body, *coverage, limits, input_bytes as int, full) && claims_withheld(full, cut)
                    && #[trigger] response_size.ensures((&full,), n1) && n1 > limits.max_response_bytes
                    && #[trigger] response_size.ensures((&cut,), n2) && n2 > limits.max_response_bytes),
            Ok(t) => exists|full: ReachingDefinitions, n: usize|
                report_holds(*body, *coverage, limits, input_bytes as int, full)
                    && #[trigger] response_size.ensures((&full,), n) && (if n <= limits.max_response_bytes {
                    t == full
                } else {
                    claims_withheld(full, t) && exists|m: usize|
                        #[trigger] response_size.ensures((&t,), m) && m <= limits.max_response_bytes
                }),
        },
{
    let mut report = match analyze_body(body, coverage, limits, control, input_bytes) {
        Ok(t) => t,
        Err(e) => {
            return Err(e);
        },
    };
    let ghost full = report;
    let n = response_size(&report);
    if n > limits.max_response_bytes as usize {
        withhold_claims(&mut report);
        let m = response_size(&report);
        if m > limits.max_response_bytes as usize {
            return Err(AnalysisError::BudgetExhausted);
        }
    }
    Ok(report)
}

/// Withholds every claim of a report (reachable blocks, definitions, uses and unknown
/// effects) and records why, as when the serialized report exceeds the response byte
/// budget.
pub fn withhold_claims(report: &mut ReachingDefinitions)
    ensures
        claims_withheld(*old(report), *final(report)),
        claims_nothing(*final(report)),
        final(report).envelope.truncated,
        final(report).fixed_point == old(report).fixed_point,
        final(report).iterations == old(report).iterations,
        final(report).body_id == old(report).body_id,
        coverage_view(final(report).envelope.coverage) == with_gap(
            coverage_view(old(report).envelope.coverage),
            UnknownReason::BudgetExhausted,
            "Reaching-definition response exceeds the byte budget; claims withheld"@,
        ),
{
    report.definitions = Vec::new();
    report.uses = Vec::new();
    report.unknown_memory_effects = Vec::new();
    report.reachable_blocks = Vec::new();
    limit(report, "Reaching-definition response exceeds the byte budget; claims withheld");
}

} // verus!
