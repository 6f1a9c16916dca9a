//! Structural cyclomatic measure of one complete imported compiler CFG: the entry-reachable
//! successor multigraph plus one synthetic exit, `E - N + 2P` with `P = 1`.
use crate::compiler::{
    terminator_problem, validate_graph_term, CompilerBlock, CompilerEdgeKind, CompilerFlowPage, CompilerIdentity,
    CompilerSourceMapping, CompilerSuccessor, CompilerTerminator, CompilerUnwind,
};
use crate::control::AnalysisControl;
use crate::decimal::{decimal_chars, decimal_string};
use crate::envelope::{invalid, stopped_message, AnalysisEnvelope, AnalysisError};
use crate::limits::CompilerComplexityLimits;
use crate::model::{coverage_view, lemma_gap_recorded, texts, with_gap, Status, UnknownReason};
use crate::reach::{adj_view, closed_graph, reach, reachable};
use vstd::prelude::*;
use vstd::string::StrSliceExecFns;

verus! {

// ---------------------------------------------------------------------------
// The graph of a body
// ---------------------------------------------------------------------------

/// Whether an edge is excluded from the runtime graph: imaginary edges, and the cleanup
/// alternative of a `false_unwind` terminator.
pub open spec fn imaginary_edge(t: CompilerTerminator, e: CompilerSuccessor) -> bool {
    e.kind == CompilerEdgeKind::Imaginary || (t.kind@ == "false_unwind"@ && e.kind
        == CompilerEdgeKind::Unwind)
}

/// Number of runtime (not excluded) edges among `s`.
pub open spec fn runtime_count(t: CompilerTerminator, s: Seq<CompilerSuccessor>) -> nat
    decreases s.len(),
{
    if s.len() == 0 {
        0
    } else {
        runtime_count(t, s.drop_last()) + if imaginary_edge(t, s.last()) {
            0nat
        } else {
            1nat
        }
    }
}

/// Whether no two blocks share an index.
pub open spec fn distinct_blocks(b: Seq<CompilerBlock>) -> bool {
    forall|p: int, q: int| 0 <= p < b.len() && 0 <= q < b.len() && p != q ==> (#[trigger] b[p]).index != (#[trigger] b[q]).index
}

/// Whether some block has index `x`.
pub open spec fn has_block(b: Seq<CompilerBlock>, x: u32) -> bool {
    exists|p: int| 0 <= p < b.len() && (#[trigger] b[p]).index == x
}

/// The position of the block with index `x`.
pub open spec fn at(b: Seq<CompilerBlock>, x: u32) -> int {
    choose|p: int| 0 <= p < b.len() && (#[trigger] b[p]).index == x
}

/// Positions of the runtime targets among `s`, in edge order.
pub open spec fn runtime_targets(b: Seq<CompilerBlock>, t: CompilerTerminator, s: Seq<CompilerSuccessor>) -> Seq<
    usize,
>
    decreases s.len(),
{
    if s.len() == 0 {
        seq![]
    } else {
        let prior = runtime_targets(b, t, s.drop_last());
        if imaginary_edge(t, s.last()) {
            prior
        } else {
            prior.push(at(b, s.last().target) as usize)
        }
    }
}

/// The runtime successor multigraph on block positions.
pub open spec fn runtime_adj(b: Seq<CompilerBlock>) -> Seq<Seq<usize>> {
    Seq::new(
        b.len(),
        |p: int| runtime_targets(b, b[p].terminator, b[p].terminator.successors@),
    )
}

/// Whether the block at position `p` is reachable from the entry block (index 0).
pub open spec fn reachable_block(b: Seq<CompilerBlock>, p: int) -> bool {
    reachable(runtime_adj(b), at(b, 0), p)
}

/// Whether `p` occurs in `s`.
pub open spec fn lists(s: Seq<usize>, p: int) -> bool {
    exists|k: int| 0 <= k < s.len() && s[k] == p
}

// ---------------------------------------------------------------------------
// Block lookup and order
// ---------------------------------------------------------------------------

/// The position of the block with index `x`, if any.
pub(crate) fn find_position(blocks: &Vec<CompilerBlock>, x: u32) -> (r: Option<usize>)
    ensures
        match r {
            Some(p) => p < blocks@.len() && blocks@[p as int].index == x,
            None => !has_block(blocks@, x),
        },
{
    let mut p: usize = 0;
    while p < blocks.len()
        invariant
            p <= blocks@.len(),
            forall|q: int| 0 <= q < p ==> (#[trigger] blocks@[q]).index != x,
        decreases blocks.len() - p,
    {
        if blocks[p].index == x {
            return Some(p);
        }
        p += 1;
    }
    None
}

/// Positions of the blocks in increasing index order.
pub(crate) fn sorted_positions(blocks: &Vec<CompilerBlock>) -> (r: Vec<usize>)
    requires
        distinct_blocks(blocks@),
    ensures
        r@.len() == blocks@.len(),
        forall|k: int| 0 <= k < r@.len() ==> (#[trigger] r@[k]) < blocks@.len(),
        forall|k: int, m: int|
            0 <= k < m < r@.len() ==> blocks@[r@[k] as int].index < blocks@[r@[m] as int].index,
        forall|p: int| 0 <= p < blocks@.len() ==> #[trigger] lists(r@, p),
{
    let mut order: Vec<usize> = Vec::new();
    let mut p: usize = 0;
    while p < blocks.len()
        invariant
            p <= blocks@.len(),
            distinct_blocks(blocks@),
            order@.len() == p,
            forall|k: int| 0 <= k < order@.len() ==> (#[trigger] order@[k]) < p,
            forall|k: int, m: int|
                0 <= k < m < order@.len() ==> blocks@[order@[k] as int].index < blocks@[order@[m] as int].index,
            forall|q: int| 0 <= q < p ==> #[trigger] lists(order@, q),
        decreases blocks.len() - p,
    {
        let key = blocks[p].index;
        let mut at_: usize = 0;
        while at_ < order.len() && blocks[order[at_]].index < key
            invariant
                at_ <= order@.len(),
                p < blocks@.len(),
                key == blocks@[p as int].index,
                forall|k: int| 0 <= k < order@.len() ==> (#[trigger] order@[k]) < p,
                forall|k: int| 0 <= k < at_ ==> blocks@[(#[trigger] order@[k]) as int].index < key,
            decreases order.len() - at_,
        {
            at_ += 1;
        }
        let ghost before = order@;
        proof {
            assert forall|k: int| at_ <= k < before.len() implies key < blocks@[(#[trigger] before[k]) as int].index by {
                if at_ < before.len() {
                    assert(!(blocks@[before[at_ as int] as int].index < key));
                    assert(before[at_ as int] != p);
                    assert(blocks@[before[at_ as int] as int].index != key);
                    if k > at_ {
                        assert(blocks@[before[at_ as int] as int].index < blocks@[before[k] as int].index);
                    }
                }
            }
        }
        order.insert(at_, p);
        proof {
            assert(order@ =~= before.subrange(0, at_ as int).push(p).add(before.subrange(at_ as int, before.len() as int)));
            assert forall|q: int| 0 <= q < p + 1 implies #[trigger] lists(order@, q) by {
                if q == p {
                    assert(order@[at_ as int] == p);
                } else {
                    assert(lists(before, q));
                    let k = choose|k: int| 0 <= k < before.len() && before[k] == q;
                    if k < at_ {
                        assert(order@[k] == q);
                    } else {
                        assert(order@[k + 1] == q);
                    }
                }
            }
        }
        p += 1;
    }
    order
}

/// The runtime successor lists, by block position. Requires every target to exist.
fn runtime_graph(blocks: &Vec<CompilerBlock>) -> (r: Vec<Vec<usize>>)
    requires
        distinct_blocks(blocks@),
        forall|p: int, j: int|
            0 <= p < blocks@.len() && 0 <= j < blocks@[p].terminator.successors@.len() ==> has_block(
                blocks@,
                #[trigger] blocks@[p].terminator.successors@[j].target,
            ),
    ensures
        r@.len() == blocks@.len(),
        adj_view(r@) == runtime_adj(blocks@),
        closed_graph(adj_view(r@)),
{
    let mut adj: Vec<Vec<usize>> = Vec::new();
    let mut p: usize = 0;
    while p < blocks.len()
        invariant
            p <= blocks@.len(),
            distinct_blocks(blocks@),
            forall|q: int, j: int|
                0 <= q < blocks@.len() && 0 <= j < blocks@[q].terminator.successors@.len() ==> has_block(
                    blocks@,
                    #[trigger] blocks@[q].terminator.successors@[j].target,
                ),
            adj@.len() == p,
            forall|q: int| 0 <= q < p ==> (#[trigger] adj@[q])@ == runtime_targets(
                blocks@,
                blocks@[q].terminator,
                blocks@[q].terminator.successors@,
            ),
            forall|q: int, j: int| 0 <= q < p && 0 <= j < adj@[q]@.len() ==> #[trigger] adj@[q]@[j] < blocks@.len(),
        decreases blocks.len() - p,
    {
        let term = &blocks[p].terminator;
        let s = &term.successors;
        let false_unwind = crate::text::text_is(term.kind.as_str(), "false_unwind");
        let mut targets: Vec<usize> = Vec::new();
        let mut j: usize = 0;
        while j < s.len()
            invariant
                p < blocks@.len(),
                *term == blocks@[p as int].terminator,
                s@ == term.successors@,
                false_unwind == (term.kind@ == "false_unwind"@),
                distinct_blocks(blocks@),
                forall|q: int, i: int|
                    0 <= q < blocks@.len() && 0 <= i < blocks@[q].terminator.successors@.len() ==> has_block(
                        blocks@,
                        #[trigger] blocks@[q].terminator.successors@[i].target,
                    ),
                j <= s@.len(),
                targets@ == runtime_targets(blocks@, *term, s@.take(j as int)),
                forall|i: int| 0 <= i < targets@.len() ==> #[trigger] targets@[i] < blocks@.len(),
            decreases s.len() - j,
        {
            proof {
                assert(s@.take(j + 1).drop_last() =~= s@.take(j as int));
                assert(s@.take(j + 1).last() == s@[j as int]);
            }
            let e = &s[j];
            let excluded = e.kind == CompilerEdgeKind::Imaginary || (false_unwind && e.kind
                == CompilerEdgeKind::Unwind);
            if !excluded {
                proof {
                    assert(has_block(blocks@, blocks@[p as int].terminator.successors@[j as int].target));
                }
                match find_position(blocks, e.target) {
                    Some(q) => {
                        proof {
                            let w = at(blocks@, e.target);
                            assert(0 <= w < blocks@.len() && blocks@[w].index == e.target);
                            if w != q {
                                assert(blocks@[w].index != blocks@[q as int].index);
                            }
                        }
                        targets.push(q);
                    },
                    None => {},
                }
            }
            j += 1;
        }
        proof {
            assert(s@.take(j as int) =~= s@);
        }
        adj.push(targets);
        p += 1;
    }
    proof {
        assert(adj_view(adj@) =~= runtime_adj(blocks@));
        assert forall|a: int, j: int| 0 <= a < adj_view(adj@).len() && 0 <= j < adj_view(adj@)[a].len() implies #[trigger] adj_view(adj@)[a][j] < adj_view(adj@).len() by {
            assert(adj_view(adj@)[a] == adj@[a]@);
        }
    }
    adj
}

// ---------------------------------------------------------------------------
// The report
// ---------------------------------------------------------------------------

/// Counts of the exit-normalized graph.
#[derive(Debug, Clone, Copy, PartialEq, Eq, Structural)]
pub struct CfgComplexityMetrics {
    pub nodes: u32,
    pub edges: u32,
    pub components: u32,
    pub cyclomatic: u32,
    pub runtime_blocks: u32,
    pub runtime_edges: u32,
    pub synthetic_exit_edges: u32,
    pub excluded_imaginary_edges: u32,
}

/// A block whose exit connects to the synthetic exit, with the reason.
#[derive(Debug, PartialEq, Eq)]
pub struct CfgExitSite {
    pub block: u32,
    pub kind: String,
    pub span: CompilerSourceMapping,
}

/// The measure of one imported body, or why it is unavailable.
#[derive(Debug)]
pub struct CompilerComplexity {
    pub envelope: AnalysisEnvelope,
    pub input_digest: String,
    pub definition_id: String,
    pub import_id: String,
    pub body_id: String,
    pub compiler: CompilerIdentity,
    pub phase: String,
    pub input_manifest_hash: String,
    pub panic_strategy: String,
    pub body_span: CompilerSourceMapping,
    pub formula: String,
    pub metrics: Option<CfgComplexityMetrics>,
    pub locations_truncated: bool,
    pub reachable_blocks: Vec<u32>,
    pub unreachable_blocks: Vec<u32>,
    pub exit_sites: Vec<CfgExitSite>,
}

// ---------------------------------------------------------------------------
// Specification of the outcome
// ---------------------------------------------------------------------------

/// The first problem with the page or limits themselves.
pub open spec fn page_error(page: CompilerFlowPage, limits: CompilerComplexityLimits) -> Option<
    Seq<char>,
> {
    if !limits.supported() {
        Some(
            "CFG limits require 1..4096 blocks, 1..20000 edges and 1024..2097152 response bytes"@,
        )
    } else if page.offset != 0 || page.next_offset is Some || page.total_blocks
        != page.body.blocks@.len() {
        Some("compiler complexity requires the complete body, not a paginated block window"@)
    } else if page.phase@ != "runtime_optimized"@ || !(page.panic_strategy@ == "abort"@
        || page.panic_strategy@ == "unwind"@) || page.coverage.status == Status::Failed
        || page.coverage.status == Status::Unavailable || page.import_id@.len() == 0
        || page.body.body_id@.len() == 0 || page.input_manifest_hash@.len() == 0 {
        Some("compiler complexity requires an available validated runtime_optimized import"@)
    } else {
        None
    }
}

/// Scanning blocks `j..` in input order after `edges` successor edges: the first duplicate
/// index or terminator problem (`.0`), or whether the successor budget runs out first (`.1`).
pub open spec fn scan_from(b: Seq<CompilerBlock>, j: int, edges: int, max_edges: int) -> (
    Option<Seq<char>>,
    bool,
)
    decreases b.len() - j,
{
    if j < 0 || j >= b.len() {
        (None, false)
    } else if exists|q: int| 0 <= q < j && (#[trigger] b[q]).index == b[j].index {
        (Some("duplicate compiler block index"@), false)
    } else if edges + b[j].terminator.successors@.len() > max_edges {
        (None, true)
    } else if terminator_problem(b[j].terminator) is Some {
        (terminator_problem(b[j].terminator), false)
    } else {
        scan_from(b, j + 1, edges + b[j].terminator.successors@.len(), max_edges)
    }
}

/// Whether the block budget or the successor budget runs out before a structural problem.
#[verifier::opaque]
pub open spec fn budget_limited(page: CompilerFlowPage, limits: CompilerComplexityLimits) -> bool {
    page_error(page, limits) is None && (page.body.blocks@.len() > limits.max_blocks || scan_from(
        page.body.blocks@,
        0,
        0,
        limits.max_edges as int,
    ).1)
}

/// Whether every successor names an existing block.
pub open spec fn targets_present(b: Seq<CompilerBlock>) -> bool {
    forall|p: int, j: int|
        0 <= p < b.len() && 0 <= j < b[p].terminator.successors@.len() ==> has_block(
            b,
            #[trigger] b[p].terminator.successors@[j].target,
        )
}

/// The invalid-input error a page and limits deserve, if any.
#[verifier::opaque]
pub open spec fn complexity_error(page: CompilerFlowPage, limits: CompilerComplexityLimits) -> Option<
    Seq<char>,
> {
    let b = page.body.blocks@;
    if page_error(page, limits) is Some {
        page_error(page, limits)
    } else if budget_limited(page, limits) {
        None
    } else if scan_from(b, 0, 0, limits.max_edges as int).0 is Some {
        scan_from(b, 0, 0, limits.max_edges as int).0
    } else if !has_block(b, 0) {
        Some("compiler CFG has no entry block bb0"@)
    } else if !targets_present(b) {
        Some("compiler successor references a missing block"@)
    } else {
        None
    }
}

/// Whether the page is measurable: no error and no budget exhausted before measuring.
pub open spec fn measurable(page: CompilerFlowPage, limits: CompilerComplexityLimits) -> bool {
    complexity_error(page, limits) is None && !budget_limited(page, limits)
}

/// Why a terminator connects its block to the synthetic exit, if it does: an external
/// unwind (not for `false_unwind`), otherwise having no runtime successor.
pub open spec fn exit_kind(t: CompilerTerminator) -> Option<Seq<char>> {
    if t.kind@ != "false_unwind"@ && t.unwind matches Some(CompilerUnwind::Continue) {
        Some("unwind_continue"@)
    } else if t.kind@ != "false_unwind"@ && t.unwind matches Some(CompilerUnwind::Terminate { .. }) {
        Some("unwind_terminate"@)
    } else if runtime_count(t, t.successors@) == 0 {
        Some("terminal:"@ + t.kind@)
    } else {
        None
    }
}

/// Over the blocks at positions below `n` that are reachable: their number, runtime
/// edges, excluded edges and exit blocks.
pub open spec fn reach_totals(b: Seq<CompilerBlock>, n: int) -> (nat, nat, nat, nat)
    decreases n,
{
    if n <= 0 {
        (0, 0, 0, 0)
    } else {
        let prior = reach_totals(b, n - 1);
        let t = b[n - 1].terminator;
        if reachable_block(b, n - 1) {
            let runtime = runtime_count(t, t.successors@);
            (
                prior.0 + 1,
                prior.1 + runtime,
                prior.2 + (t.successors@.len() - runtime) as nat,
                prior.3 + if exit_kind(t) is Some {
                    1nat
                } else {
                    0nat
                },
            )
        } else {
            prior
        }
    }
}

/// What the metrics of a measured body are.
#[verifier::opaque]
pub open spec fn metrics_of(b: Seq<CompilerBlock>, m: CfgComplexityMetrics) -> bool {
    let totals = reach_totals(b, b.len() as int);
    &&& m.runtime_blocks == totals.0
    &&& m.nodes == totals.0 + 1
    &&& m.runtime_edges == totals.1
    &&& m.excluded_imaginary_edges == totals.2
    &&& m.synthetic_exit_edges == totals.3
    &&& m.edges == totals.1 + totals.3
    &&& m.components == 1
    &&& m.cyclomatic == m.edges + 2 - m.nodes
}

/// Whether `list` holds exactly the indices of the blocks that satisfy `keep`, increasing.
pub open spec fn index_list(b: Seq<CompilerBlock>, list: Seq<u32>, keep: spec_fn(int) -> bool) -> bool {
    &&& forall|k: int, m: int| 0 <= k < m < list.len() ==> list[k] < list[m]
    &&& forall|x: u32|
        #[trigger] list.contains(x) <==> exists|p: int| 0 <= p < b.len() && (#[trigger] b[p]).index == x && keep(p)
}

/// Whether the located facts of a measured body are its reachable blocks, its unreachable
/// blocks and its exit sites, each in increasing block order.
#[verifier::opaque]
pub open spec fn locations_of(
    b: Seq<CompilerBlock>,
    reachable_blocks: Seq<u32>,
    unreachable_blocks: Seq<u32>,
    sites: Seq<CfgExitSite>,
) -> bool {
    &&& index_list(b, reachable_blocks, |p: int| reachable_block(b, p))
    &&& index_list(b, unreachable_blocks, |p: int| !reachable_block(b, p))
    &&& forall|k: int, m: int| 0 <= k < m < sites.len() ==> sites[k].block < sites[m].block
    &&& forall|m: int|
        0 <= m < sites.len() ==> exists|p: int|
            0 <= p < b.len() && (#[trigger] b[p]).index == (#[trigger] sites[m]).block && reachable_block(b, p)
                && exit_kind(b[p].terminator) == Some(sites[m].kind@) && sites[m].span
                == b[p].terminator.span
    &&& forall|p: int|
        0 <= p < b.len() && reachable_block(b, p) && exit_kind(#[trigger] b[p].terminator) is Some ==> exists|m: int|
            0 <= m < sites.len() && sites[m].block == b[p].index
}

// ---------------------------------------------------------------------------
// Checks
// ---------------------------------------------------------------------------

/// Checks the limits, that the page is the complete body, and that it is an available
/// validated import of runtime MIR.
fn check_page(page: &CompilerFlowPage, limits: CompilerComplexityLimits) -> (r: Result<(), AnalysisError>)
    ensures
        match r {
            Ok(()) => page_error(*page, limits) is None,
            Err(e) => page_error(*page, limits) matches Some(m) && e matches AnalysisError::InvalidInput(msg)
                && msg@ == m,
        },
{
    match limits.validate() {
        Ok(()) => {},
        Err(e) => {
            return Err(e);
        },
    }
    if page.offset != 0 || page.next_offset.is_some() || page.total_blocks as usize
        != page.body.blocks.len() {
        return Err(invalid("compiler complexity requires the complete body, not a paginated block window"));
    }
    let phase = crate::text::text_is(page.phase.as_str(), "runtime_optimized");
    let strategy = crate::text::text_is(page.panic_strategy.as_str(), "abort")
        || crate::text::text_is(page.panic_strategy.as_str(), "unwind");
    let available = page.coverage.status != Status::Failed && page.coverage.status
        != Status::Unavailable;
    if !phase || !strategy || !available || page.import_id.as_str().unicode_len() == 0
        || page.body.body_id.as_str().unicode_len() == 0
        || page.input_manifest_hash.as_str().unicode_len() == 0 {
        return Err(invalid("compiler complexity requires an available validated runtime_optimized import"));
    }
    Ok(())
}

/// The outcome of scanning the blocks in input order.
enum Scan {
    Fine,
    Limited,
    Stopped,
    Invalid(AnalysisError),
}

/// Scans the blocks in input order: duplicate indices, the successor budget and each
/// terminator, stopping early when the control says so.
#[verifier::loop_isolation(false)]
fn scan(blocks: &Vec<CompilerBlock>, max_edges: u32, control: &AnalysisControl) -> (r: Scan)
    ensures
        match r {
            Scan::Fine => scan_from(blocks@, 0, 0, max_edges as int) == (None::<Seq<char>>, false)
                && distinct_blocks(blocks@) && forall|p: int|
                0 <= p < blocks@.len() ==> (#[trigger] blocks@[p]).terminator.successors@.len()
                    <= max_edges,
            Scan::Limited => scan_from(blocks@, 0, 0, max_edges as int) == (None::<Seq<char>>, true),
            Scan::Invalid(e) => !scan_from(blocks@, 0, 0, max_edges as int).1 && (scan_from(
                blocks@,
                0,
                0,
                max_edges as int,
            ).0 matches Some(m) && e matches AnalysisError::InvalidInput(msg) && msg@ == m),
            Scan::Stopped => true,
        },
{
    let mut edges: u64 = 0;
    let mut j: usize = 0;
    while j < blocks.len()
        invariant
            j <= blocks@.len(),
            edges <= max_edges,
            scan_from(blocks@, 0, 0, max_edges as int) == scan_from(blocks@, j as int, edges as int, max_edges as int),
            forall|p: int, q: int| 0 <= p < j && 0 <= q < j && p != q ==> (#[trigger] blocks@[p]).index != (#[trigger] blocks@[q]).index,
            forall|p: int| 0 <= p < j ==> (#[trigger] blocks@[p]).terminator.successors@.len() <= max_edges,
        decreases blocks.len() - j,
    {
        if control.stopped() {
            return Scan::Stopped;
        }
        let block = &blocks[j];
        let mut q: usize = 0;
        while q < j
            invariant
                q <= j,
                j < blocks@.len(),
                forall|k: int| 0 <= k < q ==> (#[trigger] blocks@[k]).index != blocks@[j as int].index,
            decreases j - q,
        {
            if blocks[q].index == block.index {
                proof {
                    assert(blocks@[q as int].index == blocks@[j as int].index);
                }
                return Scan::Invalid(invalid("duplicate compiler block index"));
            }
            q += 1;
        }
        let count = block.terminator.successors.len();
        if count as u64 > max_edges as u64 - edges {
            return Scan::Limited;
        }
        match validate_graph_term(&block.terminator) {
            Ok(()) => {},
            Err(e) => {
                return Scan::Invalid(e);
            },
        }
        edges = edges + count as u64;
        j += 1;
    }
    Scan::Fine
}

/// Whether every successor of every block names an existing block, stopping early when the
/// control says so (`None`).
fn check_targets(blocks: &Vec<CompilerBlock>, control: &AnalysisControl) -> (r: Option<bool>)
    ensures
        r matches Some(ok) ==> ok == targets_present(blocks@),
{
    let mut p: usize = 0;
    while p < blocks.len()
        invariant
            p <= blocks@.len(),
            forall|a: int, j: int|
                0 <= a < p && 0 <= j < blocks@[a].terminator.successors@.len() ==> has_block(
                    blocks@,
                    #[trigger] blocks@[a].terminator.successors@[j].target,
                ),
        decreases blocks.len() - p,
    {
        if control.stopped() {
            return None;
        }
        let s = &blocks[p].terminator.successors;
        let mut j: usize = 0;
        while j < s.len()
            invariant
                p < blocks@.len(),
                *s == blocks@[p as int].terminator.successors,
                j <= s@.len(),
                forall|a: int, i: int|
                    0 <= a < p && 0 <= i < blocks@[a].terminator.successors@.len() ==> has_block(
                        blocks@,
                        #[trigger] blocks@[a].terminator.successors@[i].target,
                    ),
                forall|i: int| 0 <= i < j ==> has_block(blocks@, #[trigger] s@[i].target),
            decreases s.len() - j,
        {
            match find_position(blocks, s[j].target) {
                Some(_) => {},
                None => {
                    return Some(false);
                },
            }
            j += 1;
        }
        p += 1;
    }
    Some(true)
}

/// Number of runtime successor edges of a terminator.
fn count_runtime(t: &CompilerTerminator) -> (r: usize)
    ensures
        r == runtime_count(*t, t.successors@),
        r <= t.successors@.len(),
{
    let false_unwind = crate::text::text_is(t.kind.as_str(), "false_unwind");
    let s = &t.successors;
    let mut n: usize = 0;
    let mut j: usize = 0;
    while j < s.len()
        invariant
            j <= s@.len(),
            *s == t.successors,
            false_unwind == (t.kind@ == "false_unwind"@),
            n == runtime_count(*t, s@.take(j as int)),
            n <= j,
        decreases s.len() - j,
    {
        proof {
            assert(s@.take(j + 1).drop_last() =~= s@.take(j as int));
            assert(s@.take(j + 1).last() == s@[j as int]);
        }
        let e = &s[j];
        if !(e.kind == CompilerEdgeKind::Imaginary || (false_unwind && e.kind == CompilerEdgeKind::Unwind)) {
            n = n + 1;
        }
        j += 1;
    }
    proof {
        assert(s@.take(j as int) =~= s@);
    }
    n
}

/// Why the block's exit connects to the synthetic exit, if it does.
fn exit_of(t: &CompilerTerminator) -> (r: Option<String>)
    ensures
        match r {
            Some(k) => exit_kind(*t) == Some(k@),
            None => exit_kind(*t) is None,
        },
{
    let false_unwind = crate::text::text_is(t.kind.as_str(), "false_unwind");
    if !false_unwind {
        match &t.unwind {
            Some(CompilerUnwind::Continue) => {
                return Some("unwind_continue".to_string());
            },
            Some(CompilerUnwind::Terminate { .. }) => {
                return Some("unwind_terminate".to_string());
            },
            _ => {},
        }
    }
    if count_runtime(t) == 0 {
        let mut kind = "terminal:".to_string();
        kind.append(t.kind.as_str());
        proof {
            reveal_strlit("terminal:");
        }
        Some(kind)
    } else {
        None
    }
}

/// Totals over the reachable blocks, given the reachability of each position.
fn measure_totals(blocks: &Vec<CompilerBlock>, flags: &Vec<bool>, max_edges: u32) -> (r: (u64, u64, u64, u64))
    requires
        flags@.len() == blocks@.len(),
        blocks@.len() <= 4096,
        max_edges <= 20_000,
        forall|p: int| 0 <= p < blocks@.len() ==> (flags@[p] <==> reachable_block(blocks@, p)),
        forall|p: int| 0 <= p < blocks@.len() ==> (#[trigger] blocks@[p]).terminator.successors@.len() <= max_edges,
    ensures
        r.0 == reach_totals(blocks@, blocks@.len() as int).0,
        r.1 == reach_totals(blocks@, blocks@.len() as int).1,
        r.2 == reach_totals(blocks@, blocks@.len() as int).2,
        r.3 == reach_totals(blocks@, blocks@.len() as int).3,
        r.0 <= 4096 && r.1 <= 4096 * 20_000 && r.2 <= 4096 * 20_000 && r.3 <= 4096,
{
    let mut count: u64 = 0;
    let mut runtime: u64 = 0;
    let mut excluded: u64 = 0;
    let mut exits: u64 = 0;
    let mut p: usize = 0;
    while p < blocks.len()
        invariant
            p <= blocks@.len(),
            flags@.len() == blocks@.len(),
            blocks@.len() <= 4096,
            max_edges <= 20_000,
            forall|q: int| 0 <= q < blocks@.len() ==> (flags@[q] <==> reachable_block(blocks@, q)),
            forall|q: int| 0 <= q < blocks@.len() ==> (#[trigger] blocks@[q]).terminator.successors@.len() <= max_edges,
            (count as nat, runtime as nat, excluded as nat, exits as nat) == reach_totals(blocks@, p as int),
            count <= p,
            exits <= p,
            runtime <= p * 20_000,
            excluded <= p * 20_000,
        decreases blocks.len() - p,
    {
        let t = &blocks[p].terminator;
        if flags[p] {
            let n = count_runtime(t);
            let total = t.successors.len();
            let kind = exit_of(t);
            count = count + 1;
            runtime = runtime + n as u64;
            excluded = excluded + (total - n) as u64;
            if kind.is_some() {
                exits = exits + 1;
            }
        }
        p += 1;
    }
    (count, runtime, excluded, exits)
}

/// Whether `x` is the index of one of the first `k` blocks in `order` whose reachability
/// is `reached`.
pub open spec fn among_first(b: Seq<CompilerBlock>, order: Seq<usize>, k: int, x: u32, reached: bool) -> bool {
    exists|r: int|
        0 <= r < k && #[trigger] b[order[r] as int].index == x && reachable_block(b, order[r] as int)
            == reached
}

/// The reachable and unreachable block indices and the exit sites, in increasing block
/// order.
#[verifier::rlimit(80)]
#[verifier::spinoff_prover]
fn locate(blocks: &Vec<CompilerBlock>, order: &Vec<usize>, flags: &Vec<bool>) -> (r: (
    Vec<u32>,
    Vec<u32>,
    Vec<CfgExitSite>,
))
    requires
        flags@.len() == blocks@.len(),
        forall|p: int| 0 <= p < blocks@.len() ==> (flags@[p] <==> reachable_block(blocks@, p)),
        order@.len() == blocks@.len(),
        forall|k: int| 0 <= k < order@.len() ==> (#[trigger] order@[k]) < blocks@.len(),
        forall|k: int, m: int|
            #![trigger order@[k], order@[m]]
            0 <= k < m < order@.len() ==> blocks@[order@[k] as int].index < blocks@[order@[m] as int].index,
        forall|p: int| 0 <= p < blocks@.len() ==> #[trigger] lists(order@, p),
    ensures
        locations_of(blocks@, r.0@, r.1@, r.2@),
{
    let ghost b = blocks@;
    let mut reached: Vec<u32> = Vec::new();
    let mut missed: Vec<u32> = Vec::new();
    let mut sites: Vec<CfgExitSite> = Vec::new();
    let mut k: usize = 0;
    while k < order.len()
        invariant
            k <= order@.len(),
            b == blocks@,
            flags@.len() == b.len(),
            forall|p: int| 0 <= p < b.len() ==> (flags@[p] <==> reachable_block(b, p)),
            order@.len() == b.len(),
            forall|j: int| 0 <= j < order@.len() ==> (#[trigger] order@[j]) < b.len(),
            forall|j: int, m: int|
                #![trigger order@[j], order@[m]]
                0 <= j < m < order@.len() ==> b[order@[j] as int].index < b[order@[m] as int].index,
            forall|j: int, m: int| 0 <= j < m < reached@.len() ==> reached@[j] < reached@[m],
            forall|j: int, m: int| 0 <= j < m < missed@.len() ==> missed@[j] < missed@[m],
            forall|j: int, m: int| 0 <= j < m < sites@.len() ==> sites@[j].block < sites@[m].block,
            forall|j: int| 0 <= j < reached@.len() ==> among_first(b, order@, k as int, #[trigger] reached@[j], true),
            forall|j: int| 0 <= j < missed@.len() ==> among_first(b, order@, k as int, #[trigger] missed@[j], false),
            forall|r: int| 0 <= r < k && reachable_block(b, order@[r] as int) ==> #[trigger] reached@.contains(b[order@[r] as int].index),
            forall|r: int| 0 <= r < k && !reachable_block(b, order@[r] as int) ==> #[trigger] missed@.contains(b[order@[r] as int].index),
            forall|j: int| 0 <= j < reached@.len() ==> k > 0 && reached@[j] <= b[order@[k - 1] as int].index,
            forall|j: int| 0 <= j < missed@.len() ==> k > 0 && missed@[j] <= b[order@[k - 1] as int].index,
            forall|j: int| 0 <= j < sites@.len() ==> k > 0 && sites@[j].block <= b[order@[k - 1] as int].index,
            forall|m: int|
                0 <= m < sites@.len() ==> exists|p: int|
                    0 <= p < b.len() && (#[trigger] b[p]).index == (#[trigger] sites@[m]).block
                        && reachable_block(b, p) && exit_kind(b[p].terminator) == Some(sites@[m].kind@)
                        && sites@[m].span == b[p].terminator.span,
            forall|r: int|
                0 <= r < k && reachable_block(b, order@[r] as int) && exit_kind(b[order@[r] as int].terminator) is Some
                    ==> exists|m: int| 0 <= m < sites@.len() && #[trigger] sites@[m].block == b[order@[r] as int].index,
        decreases order.len() - k,
    {
        let p = order[k];
        let block = &blocks[p];
        let ghost before_reached = reached@;
        let ghost before_missed = missed@;
        let ghost before_sites = sites@;
        proof {
            if k > 0 {
                assert(order@[k - 1] == order@[k - 1] && order@[k as int] == order@[k as int]);
                assert(b[order@[k - 1] as int].index < b[order@[k as int] as int].index);
            }
            assert(block.index == b[order@[k as int] as int].index);
        }
        if flags[p] {
            reached.push(block.index);
            match exit_of(&block.terminator) {
                Some(kind) => {
                    sites.push(CfgExitSite { block: block.index, kind, span: block.terminator.span.copy() });
                    proof {
                        assert(sites@[sites@.len() - 1].block == b[order@[k as int] as int].index);
                    }
                },
                None => {},
            }
            proof {
                assert(reached@[reached@.len() - 1] == b[order@[k as int] as int].index);
            }
        } else {
            missed.push(block.index);
            proof {
                assert(missed@[missed@.len() - 1] == b[order@[k as int] as int].index);
            }
        }
        proof {
            assert forall|j: int| 0 <= j < reached@.len() implies among_first(b, order@, k + 1, #[trigger] reached@[j], true) by {
                if j < before_reached.len() {
                    assert(reached@[j] == before_reached[j]);
                    assert(among_first(b, order@, k as int, before_reached[j], true));
                } else {
                    assert(b[order@[k as int] as int].index == reached@[j]);
                }
            }
            assert forall|j: int| 0 <= j < missed@.len() implies among_first(b, order@, k + 1, #[trigger] missed@[j], false) by {
                if j < before_missed.len() {
                    assert(missed@[j] == before_missed[j]);
                    assert(among_first(b, order@, k as int, before_missed[j], false));
                } else {
                    assert(b[order@[k as int] as int].index == missed@[j]);
                }
            }
            assert forall|r: int| 0 <= r < k + 1 && reachable_block(b, order@[r] as int) implies #[trigger] reached@.contains(b[order@[r] as int].index) by {
                if r < k {
                    assert(before_reached.contains(b[order@[r] as int].index));
                    let j = choose|j: int| 0 <= j < before_reached.len() && before_reached[j] == b[order@[r] as int].index;
                    assert(reached@[j] == before_reached[j]);
                } else {
                    assert(reached@[reached@.len() - 1] == b[order@[k as int] as int].index);
                }
            }
            assert forall|r: int| 0 <= r < k + 1 && !reachable_block(b, order@[r] as int) implies #[trigger] missed@.contains(b[order@[r] as int].index) by {
                if r < k {
                    assert(before_missed.contains(b[order@[r] as int].index));
                    let j = choose|j: int| 0 <= j < before_missed.len() && before_missed[j] == b[order@[r] as int].index;
                    assert(missed@[j] == before_missed[j]);
                } else {
                    assert(missed@[missed@.len() - 1] == b[order@[k as int] as int].index);
                }
            }
            assert forall|m: int|
                0 <= m < sites@.len() implies exists|q: int|
                    0 <= q < b.len() && (#[trigger] b[q]).index == (#[trigger] sites@[m]).block
                        && reachable_block(b, q) && exit_kind(b[q].terminator) == Some(sites@[m].kind@)
                        && sites@[m].span == b[q].terminator.span by {
                if m < before_sites.len() {
                    assert(sites@[m] == before_sites[m]);
                } else {
                    assert(b[p as int].index == sites@[m].block);
                }
            }
            assert forall|r: int|
                0 <= r < k + 1 && reachable_block(b, order@[r] as int) && exit_kind(b[order@[r] as int].terminator) is Some
                    implies exists|m: int| 0 <= m < sites@.len() && #[trigger] sites@[m].block == b[order@[r] as int].index by {
                if r < k {
                    let m = choose|m: int| 0 <= m < before_sites.len() && before_sites[m].block == b[order@[r] as int].index;
                    assert(sites@[m] == before_sites[m]);
                } else {
                    assert(sites@[sites@.len() - 1].block == b[order@[k as int] as int].index);
                }
            }
        }
        k += 1;
    }
    proof {
        assert forall|x: u32| #[trigger] reached@.contains(x) <==> exists|p: int| 0 <= p < b.len() && (#[trigger] b[p]).index == x && reachable_block(b, p) by {
            if reached@.contains(x) {
                let j = choose|j: int| 0 <= j < reached@.len() && reached@[j] == x;
                assert(among_first(b, order@, k as int, reached@[j], true));
                let r = choose|r: int| 0 <= r < k && #[trigger] b[order@[r] as int].index == reached@[j] && reachable_block(b, order@[r] as int) == true;
                assert(b[order@[r] as int].index == x);
            }
            if exists|p: int| 0 <= p < b.len() && (#[trigger] b[p]).index == x && reachable_block(b, p) {
                let p = choose|p: int| 0 <= p < b.len() && (#[trigger] b[p]).index == x && reachable_block(b, p);
                assert(lists(order@, p));
                let r = choose|r: int| 0 <= r < order@.len() && order@[r] == p;
                assert(reached@.contains(b[order@[r] as int].index));
            }
        }
        assert forall|x: u32| #[trigger] missed@.contains(x) <==> exists|p: int| 0 <= p < b.len() && (#[trigger] b[p]).index == x && !reachable_block(b, p) by {
            if missed@.contains(x) {
                let j = choose|j: int| 0 <= j < missed@.len() && missed@[j] == x;
                assert(among_first(b, order@, k as int, missed@[j], false));
                let r = choose|r: int| 0 <= r < k && #[trigger] b[order@[r] as int].index == missed@[j] && reachable_block(b, order@[r] as int) == false;
                assert(b[order@[r] as int].index == x);
            }
            if exists|p: int| 0 <= p < b.len() && (#[trigger] b[p]).index == x && !reachable_block(b, p) {
                let p = choose|p: int| 0 <= p < b.len() && (#[trigger] b[p]).index == x && !reachable_block(b, p);
                assert(lists(order@, p));
                let r = choose|r: int| 0 <= r < order@.len() && order@[r] == p;
                assert(missed@.contains(b[order@[r] as int].index));
            }
        }
        assert forall|p: int|
            0 <= p < b.len() && reachable_block(b, p) && exit_kind(#[trigger] b[p].terminator) is Some implies exists|m: int|
                0 <= m < sites@.len() && sites@[m].block == b[p].index by {
            assert(lists(order@, p));
            let r = choose|r: int| 0 <= r < order@.len() && order@[r] == p;
            let m = choose|m: int| 0 <= m < sites@.len() && #[trigger] sites@[m].block == b[order@[r] as int].index;
        }
    }
    proof {
        reveal(locations_of);
    }
    (reached, missed, sites)
}

// ---------------------------------------------------------------------------
// The measure
// ---------------------------------------------------------------------------

/// The message of the structural-measure gap every report records.
pub open spec fn structural_message() -> Seq<char> {
    "Structural measure of the selected imported CFG, not execution feasibility, termination, or code quality"@
}

/// The assumptions of a measure under `limits`.
pub open spec fn complexity_assumptions(limits: CompilerComplexityLimits) -> Seq<Seq<char>> {
    seq![
        "A complete validated compiler body is required; compiler trust, source mapping and MIR effects remain the importer responsibility"@,
        "Only bb0-reachable blocks participate; runtime successor alternatives remain parallel multigraph edges even when targets coincide"@,
        "Imaginary edges and false_unwind cleanup alternatives are excluded; excluded-edge count covers reachable source blocks only"@,
        "Each block with external Continue/Terminate unwind contributes one synthetic-exit edge; otherwise a terminal leaf contributes one edge; false_unwind metadata is excluded"@,
        "A terminal leaf may be unreachable, tail call, nonreturning call or assembly: its synthetic edge does not assert return or termination"@,
        "N includes the synthetic exit, E includes its edges, P=1 for the entry-reachable connected graph; no exit endpoint means value unavailable"@,
        "No implicit execution paths or hidden assembly/external effects are added; this measure is distinct from source-flow branches and nesting"@,
        "Configured limits: "@ + decimal_chars(limits.max_blocks as nat) + " blocks, "@ + decimal_chars(
            limits.max_edges as nat,
        ) + " normalized edges and "@ + decimal_chars(limits.max_response_bytes as nat)
            + " response bytes"@,
    ]
}

/// What every report of `page` under `limits` carries, whatever its outcome.
#[verifier::opaque]
pub open spec fn header_of(
    page: CompilerFlowPage,
    limits: CompilerComplexityLimits,
    digest: Seq<char>,
    t: CompilerComplexity,
) -> bool {
    &&& t.envelope.algorithm_version@ == "compiler-cyclomatic-v1"@
    &&& texts(t.envelope.assumptions@) == complexity_assumptions(limits)
    &&& t.input_digest@ == digest
    &&& t.definition_id == page.definition_id
    &&& t.import_id == page.import_id
    &&& t.body_id == page.body.body_id
    &&& t.compiler == page.compiler
    &&& t.phase == page.phase
    &&& t.input_manifest_hash == page.input_manifest_hash
    &&& t.panic_strategy == page.panic_strategy
    &&& t.body_span == page.body.span
    &&& t.formula@ == "E - N + 2P"@
}

/// Whether the report records an early stop.
pub open spec fn stopped(t: CompilerComplexity) -> bool {
    crate::envelope::stop_recorded(t.envelope)
}

/// The assumptions of a measure under `limits`.
fn assumption_list(limits: CompilerComplexityLimits) -> (r: Vec<String>)
    ensures
        texts(r@) == complexity_assumptions(limits),
{
    let mut configured = "Configured limits: ".to_string();
    configured.append(decimal_string(limits.max_blocks as u128).as_str());
    configured.append(" blocks, ");
    configured.append(decimal_string(limits.max_edges as u128).as_str());
    configured.append(" normalized edges and ");
    configured.append(decimal_string(limits.max_response_bytes as u128).as_str());
    configured.append(" response bytes");
    let mut r: Vec<String> = Vec::new();
    r.push("A complete validated compiler body is required; compiler trust, source mapping and MIR effects remain the importer responsibility".to_string());
    r.push("Only bb0-reachable blocks participate; runtime successor alternatives remain parallel multigraph edges even when targets coincide".to_string());
    r.push("Imaginary edges and false_unwind cleanup alternatives are excluded; excluded-edge count covers reachable source blocks only".to_string());
    r.push("Each block with external Continue/Terminate unwind contributes one synthetic-exit edge; otherwise a terminal leaf contributes one edge; false_unwind metadata is excluded".to_string());
    r.push("A terminal leaf may be unreachable, tail call, nonreturning call or assembly: its synthetic edge does not assert return or termination".to_string());
    r.push("N includes the synthetic exit, E includes its edges, P=1 for the entry-reachable connected graph; no exit endpoint means value unavailable".to_string());
    r.push("No implicit execution paths or hidden assembly/external effects are added; this measure is distinct from source-flow branches and nesting".to_string());
    r.push(configured);
    proof {
        assert(texts(r@) =~= complexity_assumptions(limits));
    }
    r
}

/// The report header for `page`, with the structural gap recorded and no result yet.
fn new_report(page: &CompilerFlowPage, limits: CompilerComplexityLimits, input_digest: String) -> (r: CompilerComplexity)
    ensures
        header_of(*page, limits, input_digest@, r),
        r.metrics is None,
        !r.envelope.truncated,
        !stopped(r),
        coverage_view(r.envelope.coverage) == with_gap(
            coverage_view(page.coverage),
            UnknownReason::UnsupportedConstruct,
            structural_message(),
        ),
{
    let mut envelope = AnalysisEnvelope::new("compiler-cyclomatic-v1", page.coverage.copy());
    envelope.partial(
        UnknownReason::UnsupportedConstruct,
        "Structural measure of the selected imported CFG, not execution feasibility, termination, or code quality",
    );
    envelope.assumptions = assumption_list(limits);
    proof {
        reveal(header_of);
    }
    CompilerComplexity {
        envelope,
        input_digest,
        definition_id: page.definition_id.clone(),
        import_id: page.import_id.clone(),
        body_id: page.body.body_id.clone(),
        compiler: page.compiler.copy(),
        phase: page.phase.clone(),
        input_manifest_hash: page.input_manifest_hash.clone(),
        panic_strategy: page.panic_strategy.clone(),
        body_span: page.body.span.copy(),
        formula: "E - N + 2P".to_string(),
        metrics: None,
        locations_truncated: false,
        reachable_blocks: Vec::new(),
        unreachable_blocks: Vec::new(),
        exit_sites: Vec::new(),
    }
}

/// Whether two reports carry the same header.
pub open spec fn same_header(a: CompilerComplexity, b: CompilerComplexity) -> bool {
    &&& a.envelope.algorithm_version == b.envelope.algorithm_version
    &&& a.envelope.assumptions == b.envelope.assumptions
    &&& a.input_digest == b.input_digest
    &&& a.definition_id == b.definition_id
    &&& a.import_id == b.import_id
    &&& a.body_id == b.body_id
    &&& a.compiler == b.compiler
    &&& a.phase == b.phase
    &&& a.input_manifest_hash == b.input_manifest_hash
    &&& a.panic_strategy == b.panic_strategy
    &&& a.body_span == b.body_span
    &&& a.formula == b.formula
}

proof fn lemma_same_header(page: CompilerFlowPage, limits: CompilerComplexityLimits, digest: Seq<char>, a: CompilerComplexity, b: CompilerComplexity)
    requires
        header_of(page, limits, digest, a),
        same_header(a, b),
    ensures
        header_of(page, limits, digest, b),
{
    reveal(header_of);
}

/// Records an early stop.
fn halt(report: &mut CompilerComplexity, control: &AnalysisControl)
    ensures
        stopped(*final(report)),
        final(report).envelope.truncated,
        final(report).metrics == old(report).metrics,
        same_header(*old(report), *final(report)),
        final(report).reachable_blocks == old(report).reachable_blocks,
        final(report).unreachable_blocks == old(report).unreachable_blocks,
        final(report).exit_sites == old(report).exit_sites,
{
    let ghost before = coverage_view(report.envelope.coverage);
    report.envelope.stop(control);
    proof {
        lemma_gap_recorded(before, UnknownReason::BudgetExhausted, stopped_message());
    }
}

/// Records that a budget ran out: the report is truncated.
fn limited(report: &mut CompilerComplexity, message: &str)
    ensures
        final(report).envelope.truncated,
        final(report).metrics == old(report).metrics,
        stopped(*final(report)) == stopped(*old(report)),
        same_header(*old(report), *final(report)),
        final(report).reachable_blocks == old(report).reachable_blocks,
        final(report).unreachable_blocks == old(report).unreachable_blocks,
        final(report).exit_sites == old(report).exit_sites,
{
    report.envelope.truncated = true;
    report.envelope.partial(UnknownReason::BudgetExhausted, message);
}

/// Measures a structurally valid body whose entry block sits at position `entry`.
#[verifier::rlimit(40)]
#[verifier::spinoff_prover]
fn measure(
    report: CompilerComplexity,
    blocks: &Vec<CompilerBlock>,
    max_edges: u32,
    entry: usize,
    control: &AnalysisControl,
) -> (r: Result<CompilerComplexity, AnalysisError>)
    requires
        distinct_blocks(blocks@),
        targets_present(blocks@),
        entry < blocks@.len(),
        blocks@[entry as int].index == 0,
        blocks@.len() <= 4096,
        max_edges <= 20_000,
        forall|p: int| 0 <= p < blocks@.len() ==> (#[trigger] blocks@[p]).terminator.successors@.len() <= max_edges,
        report.metrics is None,
        !stopped(report),
    ensures
        match r {
            Err(e) => e matches AnalysisError::InvalidInput(msg) && msg@ == "invalid connected normalized CFG counts"@,
            Ok(t) => {
                &&& same_header(report, t)
                &&& (t.metrics matches Some(m) ==> metrics_of(blocks@, m))
                &&& (t.metrics is Some ==> {
                    let totals = reach_totals(blocks@, blocks@.len() as int);
                    totals.3 > 0 && totals.1 + totals.3 <= max_edges
                })
                &&& (stopped(t) ==> t.envelope.truncated && t.metrics is None)
                &&& (!stopped(t) ==> {
                    let totals = reach_totals(blocks@, blocks@.len() as int);
                    &&& locations_of(blocks@, t.reachable_blocks@, t.unreachable_blocks@, t.exit_sites@)
                    &&& (t.metrics is Some <==> totals.3 > 0 && totals.1 + totals.3 <= max_edges)
                })
            },
        },
{
    let mut report = report;
    let ghost original = report;
    let adj = runtime_graph(blocks);
    if control.stopped() {
        halt(&mut report, control);
        return Ok(report);
    }
    let flags = reach(&adj, entry);
    proof {
        let w = at(blocks@, 0);
        assert(0 <= w < blocks@.len() && blocks@[w].index == 0);
        if w != entry {
            assert(blocks@[w].index != blocks@[entry as int].index);
        }
    }
    let order = sorted_positions(blocks);
    let (reached, missed, sites) = locate(blocks, &order, &flags);
    report.reachable_blocks = reached;
    report.unreachable_blocks = missed;
    report.exit_sites = sites;
    let (count, runtime, excluded, exits) = measure_totals(blocks, &flags, max_edges);
    if exits == 0 {
        report.envelope.partial(
            UnknownReason::UnsupportedConstruct,
            "No terminal or external-unwind exit endpoint exists; exit-normalized cyclomatic value is unavailable",
        );
        return Ok(report);
    }
    let nodes = count + 1;
    let edges = runtime + exits;
    if edges > max_edges as u64 {
        limited(&mut report, "Exit-normalized CFG edge budget exhausted");
        return Ok(report);
    }
    if control.stopped() {
        halt(&mut report, control);
        return Ok(report);
    }
    if edges + 2 < nodes {
        return Err(invalid("invalid connected normalized CFG counts"));
    }
    let metrics = CfgComplexityMetrics {
        nodes: nodes as u32,
        edges: edges as u32,
        components: 1,
        cyclomatic: (edges + 2 - nodes) as u32,
        runtime_blocks: count as u32,
        runtime_edges: runtime as u32,
        synthetic_exit_edges: exits as u32,
        excluded_imaginary_edges: excluded as u32,
    };
    proof {
        reveal(metrics_of);
    }
    report.metrics = Some(metrics);
    Ok(report)
}

/// What a finished measure of `page` holds before any response byte budget is applied.
pub open spec fn complexity_holds(
    page: CompilerFlowPage,
    limits: CompilerComplexityLimits,
    input_digest: Seq<char>,
    page_bytes: int,
    t: CompilerComplexity,
) -> bool {
    &&& page_bytes <= 4_194_304
    &&& header_of(page, limits, input_digest, t)
    &&& page_error(page, limits) is None
    &&& (complexity_error(page, limits) is Some ==> stopped(t))
    &&& (budget_limited(page, limits) ==> t.metrics is None && t.envelope.truncated)
    &&& (t.metrics matches Some(m) ==> measurable(page, limits) && metrics_of(
        page.body.blocks@,
        m,
    ))
    &&& (t.metrics is Some ==> {
        let totals = reach_totals(page.body.blocks@, page.body.blocks@.len() as int);
        totals.3 > 0 && totals.1 + totals.3 <= limits.max_edges
    })
    &&& (stopped(t) ==> t.envelope.truncated && t.metrics is None)
    &&& (measurable(page, limits) && !stopped(t) ==> {
        let totals = reach_totals(page.body.blocks@, page.body.blocks@.len() as int);
        &&& locations_of(
            page.body.blocks@,
            t.reachable_blocks@,
            t.unreachable_blocks@,
            t.exit_sites@,
        )
        &&& (t.metrics is Some <==> totals.3 > 0 && totals.1 + totals.3 <= limits.max_edges)
    })
}

/// Whether `t` is `full` with its location records withheld for the response byte budget.
pub open spec fn locations_withheld(full: CompilerComplexity, t: CompilerComplexity) -> bool {
    &&& t.reachable_blocks@.len() == 0
    &&& t.unreachable_blocks@.len() == 0
    &&& t.exit_sites@.len() == 0
    &&& t.locations_truncated
    &&& t.metrics == full.metrics
    &&& same_header(full, t)
    &&& t.envelope.truncated == full.envelope.truncated
    &&& stopped(t) == stopped(full)
    &&& coverage_view(t.envelope.coverage) == with_gap(
        coverage_view(full.envelope.coverage),
        UnknownReason::BudgetExhausted,
        "CFG location records withheld by response byte budget; completed counts remain separate"@,
    )
}

/// Measures the page up to a finished report, before the response byte budget.
fn measure_page(
    page: &CompilerFlowPage,
    limits: CompilerComplexityLimits,
    control: &AnalysisControl,
    input_digest: String,
    page_bytes: usize,
) -> (r: Result<CompilerComplexity, AnalysisError>)
    ensures
        !limits.supported() || page_bytes > 4_194_304 ==> r is Err,
        match r {
            Err(e) => (e is BudgetExhausted && limits.supported() && page_bytes > 4_194_304) || (e matches AnalysisError::InvalidInput(msg)
                && (!limits.supported() || page_bytes <= 4_194_304) && (complexity_error(*page, limits)
                == Some(msg@) || (measurable(*page, limits) && msg@
                == "invalid connected normalized CFG counts"@))),
            Ok(t) => complexity_holds(*page, limits, input_digest@, page_bytes as int, t),
        },
{
    if limits.validate().is_ok() && page_bytes > 4 * 1024 * 1024 {
        return Err(AnalysisError::BudgetExhausted);
    }
    match check_page(page, limits) {
        Ok(()) => {},
        Err(e) => {
            proof {
                reveal(complexity_error);
            }
            return Err(e);
        },
    }
    let blocks = &page.body.blocks;
    let ghost b = blocks@;
    let mut report = new_report(page, limits, input_digest);
    let ghost header = report;
    if control.stopped() {
        halt(&mut report, control);
        proof {
            lemma_same_header(*page, limits, input_digest@, header, report);
        }
        return Ok(report);
    }
    if blocks.len() > limits.max_blocks as usize {
        limited(&mut report, "Compiler block budget exhausted");
        proof {
            lemma_same_header(*page, limits, input_digest@, header, report);
            reveal(budget_limited);
            reveal(complexity_error);
        }
        return Ok(report);
    }
    match scan(blocks, limits.max_edges, control) {
        Scan::Fine => {},
        Scan::Limited => {
            limited(&mut report, "Compiler successor budget exhausted");
            proof {
                lemma_same_header(*page, limits, input_digest@, header, report);
                reveal(budget_limited);
                reveal(complexity_error);
            }
            return Ok(report);
        },
        Scan::Stopped => {
            halt(&mut report, control);
            proof {
                lemma_same_header(*page, limits, input_digest@, header, report);
            }
            return Ok(report);
        },
        Scan::Invalid(e) => {
            proof {
                reveal(budget_limited);
                reveal(complexity_error);
            }
            return Err(e);
        },
    }
    proof {
        assert(!budget_limited(*page, limits)) by {
            reveal(budget_limited);
        }
    }
    let entry = match find_position(blocks, 0) {
        Some(p) => p,
        None => {
            proof {
                reveal(complexity_error);
            }
            return Err(invalid("compiler CFG has no entry block bb0"));
        },
    };
    match check_targets(blocks, control) {
        None => {
            halt(&mut report, control);
            proof {
                lemma_same_header(*page, limits, input_digest@, header, report);
            }
            return Ok(report);
        },
        Some(false) => {
            proof {
                reveal(complexity_error);
            }
            return Err(invalid("compiler successor references a missing block"));
        },
        Some(true) => {},
    }
    proof {
        assert(complexity_error(*page, limits) is None) by {
            reveal(complexity_error);
        }
    }
    let result = measure(report, blocks, limits.max_edges, entry, control);
    proof {
        if result is Ok {
            lemma_same_header(*page, limits, input_digest@, header, result->Ok_0);
        }
    }
    result
}

/// Measures one complete imported body: the entry-reachable successor multigraph plus a
/// single synthetic exit that each terminal leaf and each external unwind connects to,
/// without claiming termination. A body without any exit endpoint has no published
/// measure. `input_digest` identifies the request, `page_bytes` is the page's serialized
/// size (over 4 MiB is refused) and `response_size` measures the serialized size of a
/// report; the caller owns serialization. A report over `max_response_bytes` has its
/// location records withheld, and one still over it is refused as exhausting the budget.
pub fn analyze_compiler_complexity<F: Fn(&CompilerComplexity) -> usize>(
    page: &CompilerFlowPage,
    limits: CompilerComplexityLimits,
    control: &AnalysisControl,
    input_digest: String,
    page_bytes: usize,
    response_size: F,
) -> (r: Result<CompilerComplexity, AnalysisError>)
    requires
        forall|t: CompilerComplexity| #[trigger] response_size.requires((&t,)),
    ensures
        !limits.supported() || page_bytes > 4_194_304 ==> r is Err,
        match r {
            Err(e) => (e is BudgetExhausted && limits.supported() && page_bytes > 4_194_304) || (e matches AnalysisError::InvalidInput(msg)
                && (!limits.supported() || page_bytes <= 4_194_304) && (complexity_error(*page, limits)
                == Some(msg@) || (measurable(*page, limits) && msg@
                == "invalid connected normalized CFG counts"@))) || (e is BudgetExhausted && exists|full: CompilerComplexity, cut: CompilerComplexity, n1: usize, n2: usize|
                complexity_holds(*page, limits, input_digest@, page_bytes as int, full) && locations_withheld(full, cut)
                    && #[trigger] response_size.ensures((&full,), n1) && n1 > limits.max_response_bytes
                    && #[trigger] response_size.ensures((&cut,), n2) && n2 > limits.max_response_bytes),
            Ok(t) => exists|full: CompilerComplexity, n: usize|
                complexity_holds(*page, limits, input_digest@, page_bytes as int, full)
                    && #[trigger] response_size.ensures((&full,), n) && (if n <= limits.max_response_bytes {
                    t == full
                } else {
                    locations_withheld(full, t) && exists|m: usize|
                        #[trigger] response_size.ensures((&t,), m) && m <= limits.max_response_bytes
                }),
        },
{
    let mut report = match measure_page(page, limits, control, input_digest, page_bytes) {
        Ok(t) => t,
        Err(e) => {
            return Err(e);
        },
    };
    let n = response_size(&report);
    if n > limits.max_response_bytes as usize {
        withhold_locations(&mut report);
        let m = response_size(&report);
        if m > limits.max_response_bytes as usize {
            return Err(AnalysisError::BudgetExhausted);
        }
    }
    Ok(report)
}

/// Withholds the location records of a report (reachable and unreachable blocks, exit
/// sites) and records why, leaving the counts, as when the serialized report exceeds the
/// response byte budget.
pub fn withhold_locations(report: &mut CompilerComplexity)
    ensures
        locations_withheld(*old(report), *final(report)),
        final(report).reachable_blocks@.len() == 0,
        final(report).unreachable_blocks@.len() == 0,
        final(report).exit_sites@.len() == 0,
        final(report).locations_truncated,
        final(report).metrics == old(report).metrics,
        final(report).envelope.truncated == old(report).envelope.truncated,
        coverage_view(final(report).envelope.coverage) == with_gap(
            coverage_view(old(report).envelope.coverage),
            UnknownReason::BudgetExhausted,
            "CFG location records withheld by response byte budget; completed counts remain separate"@,
        ),
{
    report.reachable_blocks = Vec::new();
    report.unreachable_blocks = Vec::new();
    report.exit_sites = Vec::new();
    report.locations_truncated = true;
    report.envelope.partial(
        UnknownReason::BudgetExhausted,
        "CFG location records withheld by response byte budget; completed counts remain separate",
    );
}

// ---------------------------------------------------------------------------
// Counts against locations
// ---------------------------------------------------------------------------

/// The reachable positions below `n`.
pub open spec fn reached_below(b: Seq<CompilerBlock>, n: int) -> Set<int> {
    Set::new(|p: int| 0 <= p < n && reachable_block(b, p))
}

/// The reachable positions below `n` whose block connects to the synthetic exit.
pub open spec fn exits_below(b: Seq<CompilerBlock>, n: int) -> Set<int> {
    Set::new(|p: int| 0 <= p < n && reachable_block(b, p) && exit_kind(b[p].terminator) is Some)
}

proof fn lemma_totals_count(b: Seq<CompilerBlock>, n: int)
    requires
        0 <= n <= b.len(),
    ensures
        reached_below(b, n).finite(),
        exits_below(b, n).finite(),
        reach_totals(b, n).0 == reached_below(b, n).len(),
        reach_totals(b, n).3 == exits_below(b, n).len(),
    decreases n,
{
    if n == 0 {
        assert(reached_below(b, n) =~= Set::empty());
        assert(exits_below(b, n) =~= Set::empty());
    } else {
        lemma_totals_count(b, n - 1);
        if reachable_block(b, n - 1) {
            assert(reached_below(b, n) =~= reached_below(b, n - 1).insert(n - 1));
            if exit_kind(b[n - 1].terminator) is Some {
                assert(exits_below(b, n) =~= exits_below(b, n - 1).insert(n - 1));
            } else {
                assert(exits_below(b, n) =~= exits_below(b, n - 1));
            }
        } else {
            assert(reached_below(b, n) =~= reached_below(b, n - 1));
            assert(exits_below(b, n) =~= exits_below(b, n - 1));
        }
    }
}

proof fn lemma_scan_distinct(b: Seq<CompilerBlock>, j: int, edges: int, max_edges: int)
    requires
        0 <= j,
        scan_from(b, j, edges, max_edges).0 is None,
        !scan_from(b, j, edges, max_edges).1,
    ensures
        forall|p: int, q: int| 0 <= q < p && j <= p < b.len() ==> (#[trigger] b[q]).index != (#[trigger] b[p]).index,
    decreases b.len() - j,
{
    if j < b.len() {
        lemma_scan_distinct(b, j + 1, edges + b[j].terminator.successors@.len(), max_edges);
    }
}

proof fn lemma_listed_count(b: Seq<CompilerBlock>, list: Seq<u32>, s: Set<int>)
    requires
        distinct_blocks(b),
        s.finite(),
        forall|p: int| #[trigger] s.contains(p) ==> 0 <= p < b.len(),
        forall|k: int, m: int| 0 <= k < m < list.len() ==> list[k] < list[m],
        forall|x: u32| #[trigger] list.contains(x) <==> exists|p: int| s.contains(p) && (#[trigger] b[p]).index == x,
    ensures
        list.len() == s.len(),
{
    let f = |p: int| b[p].index;
    assert(list.no_duplicates()) by {
        assert forall|k: int, m: int| 0 <= k < list.len() && 0 <= m < list.len() && k != m implies list[k] != list[m] by {
            if k < m {
            } else {
            }
        }
    }
    list.unique_seq_to_set();
    assert(vstd::relations::injective_on(f, s)) by {
        assert forall|p: int, q: int| s.contains(p) && s.contains(q) && #[trigger] f(p) == #[trigger] f(q) implies p == q by {
            if p != q {
                assert(b[p].index != b[q].index);
            }
        }
    }
    assert(s.map(f) =~= list.to_set()) by {
        assert forall|x: u32| s.map(f).contains(x) implies list.to_set().contains(x) by {
            let p = choose|p: int| s.contains(p) && f(p) == x;
            assert(b[p].index == x);
            assert(list.contains(x));
        }
        assert forall|x: u32| list.to_set().contains(x) implies s.map(f).contains(x) by {
            assert(list.contains(x));
            let p = choose|p: int| s.contains(p) && (#[trigger] b[p]).index == x;
            assert(f(p) == x);
        }
    }
    vstd::set_lib::lemma_map_size(s, list.to_set(), f);
}

/// A measured page's counts agree with its location records: it lists exactly as many
/// reachable blocks as it counts runtime blocks, and exactly as many exit sites as it
/// counts synthetic exit edges.
pub proof fn law_counts_match_locations(
    page: CompilerFlowPage,
    limits: CompilerComplexityLimits,
    input_digest: Seq<char>,
    page_bytes: int,
    t: CompilerComplexity,
)
    requires
        complexity_holds(page, limits, input_digest, page_bytes, t),
        t.metrics is Some,
    ensures
        t.metrics->0.runtime_blocks == t.reachable_blocks@.len(),
        t.metrics->0.synthetic_exit_edges == t.exit_sites@.len(),
{
    let b = page.body.blocks@;
    let m = t.metrics->0;
    reveal(metrics_of);
    reveal(locations_of);
    reveal(complexity_error);
    reveal(budget_limited);
    lemma_scan_distinct(b, 0, 0, limits.max_edges as int);
    assert(distinct_blocks(b));
    lemma_totals_count(b, b.len() as int);
    let reached = reached_below(b, b.len() as int);
    let exits = exits_below(b, b.len() as int);
    assert forall|x: u32| #[trigger] t.reachable_blocks@.contains(x) <==> exists|p: int| reached.contains(p) && (#[trigger] b[p]).index == x by {
        if t.reachable_blocks@.contains(x) {
            let p = choose|p: int| 0 <= p < b.len() && (#[trigger] b[p]).index == x && reachable_block(b, p);
            assert(reached.contains(p));
        }
        if exists|p: int| reached.contains(p) && (#[trigger] b[p]).index == x {
            let p = choose|p: int| reached.contains(p) && (#[trigger] b[p]).index == x;
            assert(0 <= p < b.len() && b[p].index == x && reachable_block(b, p));
        }
    }
    lemma_listed_count(b, t.reachable_blocks@, reached);
    let blocks = t.exit_sites@.map_values(|s: CfgExitSite| s.block);
    assert forall|x: u32| #[trigger] blocks.contains(x) <==> exists|p: int| exits.contains(p) && (#[trigger] b[p]).index == x by {
        if blocks.contains(x) {
            let k = choose|k: int| 0 <= k < blocks.len() && blocks[k] == x;
            assert(t.exit_sites@[k].block == x);
            let p = choose|p: int|
                0 <= p < b.len() && (#[trigger] b[p]).index == (#[trigger] t.exit_sites@[k]).block && reachable_block(b, p)
                    && exit_kind(b[p].terminator) == Some(t.exit_sites@[k].kind@) && t.exit_sites@[k].span
                    == b[p].terminator.span;
            assert(exits.contains(p));
        }
        if exists|p: int| exits.contains(p) && (#[trigger] b[p]).index == x {
            let p = choose|p: int| exits.contains(p) && (#[trigger] b[p]).index == x;
            assert(0 <= p < b.len() && reachable_block(b, p) && exit_kind(b[p].terminator) is Some);
            let k = choose|k: int| 0 <= k < t.exit_sites@.len() && t.exit_sites@[k].block == b[p].index;
            assert(blocks[k] == x);
        }
    }
    lemma_listed_count(b, blocks, exits);
}

/// Whether a terminator connects to the synthetic exit only by having no runtime
/// successor: it does not unwind outward.
pub open spec fn unwinds_inward(t: CompilerTerminator) -> bool {
    t.kind@ == "false_unwind"@ || !(t.unwind matches Some(CompilerUnwind::Continue) || t.unwind matches Some(
        CompilerUnwind::Terminate { .. },
    ))
}

/// Over the reachable positions below `n`: the runtime successors of each block beyond its
/// first, summed.
pub open spec fn branch_excess(b: Seq<CompilerBlock>, n: int) -> int
    decreases n,
{
    if n <= 0 {
        0
    } else {
        let t = b[n - 1].terminator;
        let runtime = runtime_count(t, t.successors@) as int;
        branch_excess(b, n - 1) + if reachable_block(b, n - 1) && runtime > 0 {
            runtime - 1
        } else {
            0
        }
    }
}

proof fn lemma_excess_totals(b: Seq<CompilerBlock>, n: int)
    requires
        0 <= n <= b.len(),
        forall|p: int| 0 <= p < b.len() && reachable_block(b, p) ==> unwinds_inward(#[trigger] b[p].terminator),
    ensures
        reach_totals(b, n).1 + reach_totals(b, n).3 - reach_totals(b, n).0 == branch_excess(b, n),
    decreases n,
{
    if n > 0 {
        lemma_excess_totals(b, n - 1);
        if reachable_block(b, n - 1) {
            assert(unwinds_inward(b[n - 1].terminator));
        }
    }
}

/// On a page where no reachable block unwinds outward, the cyclomatic number is one plus
/// the branching excess: the runtime successors of each reachable block beyond its first,
/// summed over the reachable blocks.
pub proof fn law_cyclomatic_is_branch_excess(
    page: CompilerFlowPage,
    limits: CompilerComplexityLimits,
    input_digest: Seq<char>,
    page_bytes: int,
    t: CompilerComplexity,
)
    requires
        complexity_holds(page, limits, input_digest, page_bytes, t),
        t.metrics is Some,
        forall|p: int|
            0 <= p < page.body.blocks@.len() && reachable_block(page.body.blocks@, p) ==> unwinds_inward(
                #[trigger] page.body.blocks@[p].terminator,
            ),
    ensures
        t.metrics->0.cyclomatic == 1 + branch_excess(page.body.blocks@, page.body.blocks@.len() as int),
{
    let b = page.body.blocks@;
    reveal(metrics_of);
    lemma_excess_totals(b, b.len() as int);
}

} // verus!
