//! The selected call graph: its nodes, its call sites and the frontier of calls that leave it.
use crate::control::AnalysisControl;
use crate::envelope::{invalid, stopped_message, AnalysisEnvelope, AnalysisError};
use crate::limits::AnalysisLimits;
use crate::statistics::{distribution, summarizes, MetricDistribution};
use crate::reach::{adj_view, closed_graph, reachable, step, within};
use petgraph::algo::kosaraju_scc;
use petgraph::graph::{Graph, NodeIndex};
use petgraph::visit::Bfs;
use sha2::{Digest, Sha256};
use crate::model::{
    add_limitation, coverage_view, lemma_with_gaps_push, texts, with_gap, with_gaps, CfgStatus,
    Coverage, UnknownReason,
};
use crate::text::{
    bytes_eq, bytes_lt, bytes_of, lemma_lex_irreflexive, lemma_lex_total, lemma_lex_transitive,
    lex_lt, text_bytes, text_is,
};
use vstd::prelude::*;
use vstd::utf8::encode_utf8;

verus! {

/// Source-level counts of one definition, as the frontend reported them.
#[derive(Debug, Clone, Copy, Default)]
pub struct SourceMetrics {
    pub lines: u32,
    pub branches: u32,
    pub returns: u32,
    pub awaits: u32,
    pub unsafe_blocks: u32,
}

/// One selected definition: its identity, build context, configuration status,
/// declared visibility and source counts.
#[derive(Debug, Clone)]
pub struct Definition {
    pub id: String,
    pub context_id: String,
    pub cfg_status: CfgStatus,
    pub visibility: String,
    pub metrics: SourceMetrics,
}

/// Where a relation points: a resolved definition, or an unknown target with its reason.
#[derive(Debug, Clone)]
pub enum Target {
    Resolved { id: String },
    Unknown { reason: UnknownReason, label: String },
}

/// One relation between definitions; only `calls` relations form call sites.
#[derive(Debug, Clone)]
pub struct Relation {
    pub id: String,
    pub source: String,
    pub target: Target,
    pub kind: String,
}

/// The definitions and relations chosen for one analysis, with the coverage of that choice.
pub struct SelectedGraph<'a> {
    pub nodes: &'a [Definition],
    pub edges: &'a [Relation],
    pub coverage: &'a Coverage,
    pub input_truncated: bool,
}

/// A call site whose target is unknown or lies outside the selection.
#[derive(Debug, Clone)]
pub struct UnknownFrontier {
    pub source: String,
    pub relation_id: String,
    pub target_definition_id: Option<String>,
    pub reason: UnknownReason,
}

/// The bytes by which identities are compared and ordered.
pub open spec fn key(s: String) -> Seq<u8> {
    text_bytes(s)
}

/// The ordering key of a relation's target: its resolved identity, or nothing.
pub open spec fn target_key(r: Relation) -> Seq<u8> {
    match r.target {
        Target::Resolved { id } => key(id),
        Target::Unknown { .. } => Seq::empty(),
    }
}

/// Whether the node at `i` breaks the scan: another build context than the node before
/// it, or an identity already seen.
pub open spec fn mixes_context(n: Seq<Definition>, i: int) -> bool {
    0 < i && key(n[i].context_id) != key(n[i - 1].context_id)
}

pub open spec fn repeats_node(n: Seq<Definition>, i: int) -> bool {
    exists|k: int| 0 <= k < i && #[trigger] key(n[k].id) == key(n[i].id)
}

pub open spec fn node_fault(n: Seq<Definition>, i: int) -> bool {
    mixes_context(n, i) || repeats_node(n, i)
}

/// Whether the relation at `j` repeats an earlier relation identity.
pub open spec fn repeats_relation(e: Seq<Relation>, j: int) -> bool {
    exists|k: int| 0 <= k < j && #[trigger] key(e[k].id) == key(e[j].id)
}

/// The first node at which the scan breaks.
pub open spec fn first_node_fault(n: Seq<Definition>, i: int) -> bool {
    &&& 0 <= i < n.len()
    &&& node_fault(n, i)
    &&& forall|k: int| 0 <= k < i ==> !#[trigger] node_fault(n, k)
}

pub open spec fn limits_message() -> Seq<char> {
    "limits require 1..10000 nodes/visits, 1..50000 edges, depth <=64 and 256..2097152 response bytes"@
}

pub open spec fn mixed_message() -> Seq<char> {
    "selected definitions mix build contexts"@
}

pub open spec fn duplicate_definition_message() -> Seq<char> {
    "duplicate definition identity"@
}

pub open spec fn duplicate_relation_message() -> Seq<char> {
    "duplicate relation identity"@
}

/// Why a selection is refused before any analysis: `Some(Some(m))` for invalid input
/// with message `m`, `Some(None)` for an exhausted hard budget, `None` when it is accepted.
/// `input_bytes` is the size of the serialized selection.
pub open spec fn selection_fault(
    n: Seq<Definition>,
    e: Seq<Relation>,
    limits: AnalysisLimits,
    input_bytes: int,
) -> Option<Option<Seq<char>>> {
    if !limits.supported() {
        Some(Some(limits_message()))
    } else if n.len() > 10_000 || e.len() > 50_000 || input_bytes > 16_777_216 {
        Some(None)
    } else if exists|i: int| first_node_fault(n, i) {
        let i = choose|i: int| first_node_fault(n, i);
        if mixes_context(n, i) {
            Some(Some(mixed_message()))
        } else {
            Some(Some(duplicate_definition_message()))
        }
    } else if exists|j: int| 0 <= j < e.len() && repeats_relation(e, j) {
        Some(Some(duplicate_relation_message()))
    } else {
        None
    }
}

/// Whether the selection is refused before any of it is read: unsupported limits, more
/// than 10,000 nodes or 50,000 relations, or more than 16 MiB of serialized input.
pub open spec fn early_refusal(n: Seq<Definition>, e: Seq<Relation>, limits: AnalysisLimits, input_bytes: int) -> bool {
    !limits.supported() || n.len() > 10_000 || e.len() > 50_000 || input_bytes > 16_777_216
}

/// Whether `err` is the refusal `fault` describes.
pub open spec fn refusal_is(err: AnalysisError, fault: Option<Seq<char>>) -> bool {
    match fault {
        Some(m) => err matches AnalysisError::InvalidInput(text) && text@ == m,
        None => err is BudgetExhausted,
    }
}

/// Whether `order` lists node positions in strictly ascending identity order.
pub open spec fn nodes_ascending(n: Seq<Definition>, order: Seq<usize>) -> bool {
    &&& forall|m: int| 0 <= m < order.len() ==> #[trigger] order[m] < n.len()
    &&& forall|a: int, b: int|
        0 <= a < b < order.len() ==> lex_lt(
            key(#[trigger] n[order[a] as int].id),
            key(#[trigger] n[order[b] as int].id),
        )
}

/// Whether `order` lists relation positions in strictly ascending identity order.
pub open spec fn relations_ascending(e: Seq<Relation>, order: Seq<usize>) -> bool {
    &&& forall|m: int| 0 <= m < order.len() ==> #[trigger] order[m] < e.len()
    &&& forall|a: int, b: int|
        0 <= a < b < order.len() ==> lex_lt(
            key(#[trigger] e[order[a] as int].id),
            key(#[trigger] e[order[b] as int].id),
        )
}

/// Where a node identity belongs among `order`: `None` when a node with that identity is
/// there already, else the insertion point.
fn node_slot(nodes: &[Definition], order: &Vec<usize>, at: usize) -> (r: Option<usize>)
    requires
        at < nodes@.len(),
        nodes_ascending(nodes@, order@),
    ensures
        r is None <==> exists|m: int|
            0 <= m < order@.len() && #[trigger] key(nodes@[order@[m] as int].id) == key(
                nodes@[at as int].id,
            ),
        r matches Some(s) ==> {
            &&& s <= order@.len()
            &&& forall|a: int|
                0 <= a < s ==> lex_lt(
                    key(#[trigger] nodes@[order@[a] as int].id),
                    key(nodes@[at as int].id),
                )
            &&& forall|a: int|
                s <= a < order@.len() ==> lex_lt(
                    key(nodes@[at as int].id),
                    key(#[trigger] nodes@[order@[a] as int].id),
                )
        },
{
    let target = bytes_of(&nodes[at].id);
    let mut m: usize = 0;
    while m < order.len()
        invariant
            m <= order@.len(),
            at < nodes@.len(),
            nodes_ascending(nodes@, order@),
            target@ == key(nodes@[at as int].id),
            forall|a: int|
                0 <= a < m ==> lex_lt(key(#[trigger] nodes@[order@[a] as int].id), target@),
        decreases order.len() - m,
    {
        let here = bytes_of(&nodes[order[m]].id);
        if bytes_eq(here, target) {
            proof {
                assert(key(nodes@[order@[m as int] as int].id) == key(nodes@[at as int].id));
            }
            return None;
        }
        if bytes_lt(target, here) {
            proof {
                assert forall|a: int| m <= a < order@.len() implies lex_lt(
                    target@,
                    key(#[trigger] nodes@[order@[a] as int].id),
                ) by {
                    if a > m {
                        lemma_lex_transitive(target@, here@, key(nodes@[order@[a] as int].id));
                    }
                }
                assert forall|k: int| 0 <= k < order@.len() implies #[trigger] key(
                    nodes@[order@[k] as int].id,
                ) != target@ by {
                    if k < m {
                        lemma_lex_irreflexive(target@);
                    } else {
                        lemma_lex_irreflexive(target@);
                    }
                }
            }
            return Some(m);
        }
        proof {
            lemma_lex_total(here@, target@);
        }
        m += 1;
    }
    proof {
        assert forall|k: int| 0 <= k < order@.len() implies #[trigger] key(
            nodes@[order@[k] as int].id,
        ) != target@ by {
            lemma_lex_irreflexive(target@);
        }
    }
    Some(m)
}

/// Where a relation identity belongs among `order`: `None` when a relation with that
/// identity is there already, else the insertion point.
fn relation_slot(edges: &[Relation], order: &Vec<usize>, at: usize) -> (r: Option<usize>)
    requires
        at < edges@.len(),
        relations_ascending(edges@, order@),
    ensures
        r is None <==> exists|m: int|
            0 <= m < order@.len() && #[trigger] key(edges@[order@[m] as int].id) == key(
                edges@[at as int].id,
            ),
        r matches Some(s) ==> {
            &&& s <= order@.len()
            &&& forall|a: int|
                0 <= a < s ==> lex_lt(
                    key(#[trigger] edges@[order@[a] as int].id),
                    key(edges@[at as int].id),
                )
            &&& forall|a: int|
                s <= a < order@.len() ==> lex_lt(
                    key(edges@[at as int].id),
                    key(#[trigger] edges@[order@[a] as int].id),
                )
        },
{
    let target = bytes_of(&edges[at].id);
    let mut m: usize = 0;
    while m < order.len()
        invariant
            m <= order@.len(),
            at < edges@.len(),
            relations_ascending(edges@, order@),
            target@ == key(edges@[at as int].id),
            forall|a: int|
                0 <= a < m ==> lex_lt(key(#[trigger] edges@[order@[a] as int].id), target@),
        decreases order.len() - m,
    {
        let here = bytes_of(&edges[order[m]].id);
        if bytes_eq(here, target) {
            proof {
                assert(key(edges@[order@[m as int] as int].id) == key(edges@[at as int].id));
            }
            return None;
        }
        if bytes_lt(target, here) {
            proof {
                assert forall|a: int| m <= a < order@.len() implies lex_lt(
                    target@,
                    key(#[trigger] edges@[order@[a] as int].id),
                ) by {
                    if a > m {
                        lemma_lex_transitive(target@, here@, key(edges@[order@[a] as int].id));
                    }
                }
                assert forall|k: int| 0 <= k < order@.len() implies #[trigger] key(
                    edges@[order@[k] as int].id,
                ) != target@ by {
                    lemma_lex_irreflexive(target@);
                }
            }
            return Some(m);
        }
        proof {
            lemma_lex_total(here@, target@);
        }
        m += 1;
    }
    proof {
        assert forall|k: int| 0 <= k < order@.len() implies #[trigger] key(
            edges@[order@[k] as int].id,
        ) != target@ by {
            lemma_lex_irreflexive(target@);
        }
    }
    Some(m)
}

/// The stop gap recorded when an analysis halts early.
pub open spec fn stop_gap() -> (UnknownReason, Seq<char>) {
    (UnknownReason::BudgetExhausted, stopped_message())
}

/// Whether `after` is `before` with only coverage gaps `gaps` recorded, and marked
/// truncated when `halted`.
pub open spec fn envelope_step(
    before: AnalysisEnvelope,
    after: AnalysisEnvelope,
    gaps: Seq<(UnknownReason, Seq<char>)>,
) -> bool {
    &&& coverage_view(after.coverage) == with_gaps(coverage_view(before.coverage), gaps)
    &&& after.algorithm_version == before.algorithm_version
    &&& after.assumptions == before.assumptions
    &&& before.truncated ==> after.truncated
    &&& stopped_env(before) ==> stopped_env(after)
}

/// Halts: records the stop gap.
fn halt(envelope: &mut AnalysisEnvelope, control: &AnalysisControl)
    ensures
        envelope_step(*old(envelope), *final(envelope), seq![stop_gap()]),
        final(envelope).truncated,
        stopped_env(*final(envelope)),
{
    let ghost before = coverage_view(envelope.coverage);
    envelope.stop(control);
    proof {
        let none = Seq::<(UnknownReason, Seq<char>)>::empty();
        lemma_with_gaps_push(before, none, stop_gap().0, stop_gap().1);
        assert(none.push(stop_gap()) =~= seq![stop_gap()]);
    }
}

/// Scans the nodes in order, stopping early when asked. Yields the scanned positions in
/// identity order and whether the scan stopped; refuses the first node in another build
/// context than its predecessor or with a repeated identity.
fn scan_nodes(nodes: &[Definition], envelope: &mut AnalysisEnvelope, control: &AnalysisControl) -> (r:
    Result<(Vec<usize>, bool), AnalysisError>)
    ensures
        match r {
            Err(e) => exists|i: int|
                #![trigger first_node_fault(nodes@, i)]
                first_node_fault(nodes@, i) && refusal_is(
                    e,
                    Some(
                        if mixes_context(nodes@, i) {
                            mixed_message()
                        } else {
                            duplicate_definition_message()
                        },
                    ),
                ),
            Ok((order, halted)) => {
                &&& nodes_ascending(nodes@, order@)
                &&& order@.len() <= nodes@.len()
                &&& forall|p: int| 0 <= p < order@.len() ==> #[trigger] order@.contains(p as usize)
                &&& forall|m: int| 0 <= m < order@.len() ==> #[trigger] order@[m] < order@.len()
                &&& forall|k: int| 0 <= k < order@.len() ==> !#[trigger] node_fault(nodes@, k)
                &&& !halted ==> order@.len() == nodes@.len() && *final(envelope) == *old(envelope)
                &&& halted ==> envelope_step(*old(envelope), *final(envelope), seq![stop_gap()])
                    && final(envelope).truncated && stopped_env(*final(envelope))
            },
        },
{
    let mut order: Vec<usize> = Vec::new();
    let mut i: usize = 0;
    while i < nodes.len()
        invariant
            i <= nodes@.len(),
            order@.len() == i,
            nodes_ascending(nodes@, order@),
            forall|p: int| 0 <= p < i ==> #[trigger] order@.contains(p as usize),
            forall|m: int| 0 <= m < order@.len() ==> #[trigger] order@[m] < i,
            forall|k: int| 0 <= k < i ==> !#[trigger] node_fault(nodes@, k),
            *envelope == *old(envelope),
        decreases nodes.len() - i,
    {
        if control.stopped() {
            halt(envelope, control);
            return Ok((order, true));
        }
        if i > 0 && !bytes_eq(bytes_of(&nodes[i].context_id), bytes_of(&nodes[i - 1].context_id)) {
            proof {
                assert(node_fault(nodes@, i as int));
                assert(first_node_fault(nodes@, i as int));
            }
            return Err(invalid("selected definitions mix build contexts"));
        }
        match node_slot(nodes, &order, i) {
            None => {
                proof {
                    let m = choose|m: int|
                        0 <= m < order@.len() && #[trigger] key(nodes@[order@[m] as int].id)
                            == key(nodes@[i as int].id);
                    assert(key(nodes@[order@[m] as int].id) == key(nodes@[i as int].id));
                    assert(repeats_node(nodes@, i as int));
                    assert(first_node_fault(nodes@, i as int));
                }
                return Err(invalid("duplicate definition identity"));
            },
            Some(at) => {
                proof {
                    if repeats_node(nodes@, i as int) {
                        let k = choose|k: int|
                            0 <= k < i && #[trigger] key(nodes@[k].id) == key(nodes@[i as int].id);
                        assert(order@.contains(k as usize));
                        let m = choose|m: int| 0 <= m < order@.len() && order@[m] == k as usize;
                        assert(key(nodes@[order@[m] as int].id) == key(nodes@[i as int].id));
                        if m < at {
                            lemma_lex_irreflexive(key(nodes@[i as int].id));
                        } else {
                            lemma_lex_irreflexive(key(nodes@[i as int].id));
                        }
                    }
                }
                let ghost before = order@;
                order.insert(at, i);
                proof {
                    assert(order@ =~= before.insert(at as int, i));
                    assert forall|a: int, b: int| 0 <= a < b < order@.len() implies lex_lt(
                        key(#[trigger] nodes@[order@[a] as int].id),
                        key(#[trigger] nodes@[order@[b] as int].id),
                    ) by {
                        if b < at {
                        } else if b == at {
                        } else if a < at {
                            assert(order@[b] == before[b - 1]);
                        } else if a == at {
                            assert(order@[b] == before[b - 1]);
                        } else {
                            assert(order@[a] == before[a - 1]);
                            assert(order@[b] == before[b - 1]);
                        }
                    }
                    assert forall|p: int| 0 <= p < i + 1 implies #[trigger] order@.contains(p as usize) by {
                        if p == i {
                            assert(order@[at as int] == i);
                        } else {
                            assert(before.contains(p as usize));
                            let m = choose|m: int| 0 <= m < before.len() && before[m] == p as usize;
                            if m < at {
                                assert(order@[m] == p as usize);
                            } else {
                                assert(order@[m + 1] == p as usize);
                            }
                        }
                    }
                    assert forall|m: int| 0 <= m < order@.len() implies #[trigger] order@[m] < i + 1 by {
                        if m < at {
                            assert(order@[m] == before[m]);
                        } else if m > at {
                            assert(order@[m] == before[m - 1]);
                        }
                    }
                }
            },
        }
        i += 1;
    }
    Ok((order, false))
}

/// Scans the relations in order, stopping early when asked. Yields the scanned positions
/// in identity order and whether the scan stopped; refuses a repeated relation identity.
fn scan_relations(
    edges: &[Relation],
    envelope: &mut AnalysisEnvelope,
    control: &AnalysisControl,
) -> (r: Result<(Vec<usize>, bool), AnalysisError>)
    ensures
        match r {
            Err(e) => (exists|j: int| 0 <= j < edges@.len() && repeats_relation(edges@, j))
                && refusal_is(e, Some(duplicate_relation_message())),
            Ok((order, halted)) => {
                &&& relations_ascending(edges@, order@)
                &&& order@.len() <= edges@.len()
                &&& forall|p: int| 0 <= p < order@.len() ==> #[trigger] order@.contains(p as usize)
                &&& forall|m: int| 0 <= m < order@.len() ==> #[trigger] order@[m] < order@.len()
                &&& !halted ==> order@.len() == edges@.len() && *final(envelope) == *old(envelope)
                    && forall|j: int| 0 <= j < edges@.len() ==> !repeats_relation(edges@, j)
                &&& halted ==> envelope_step(*old(envelope), *final(envelope), seq![stop_gap()])
                    && final(envelope).truncated && stopped_env(*final(envelope))
            },
        },
{
    let mut order: Vec<usize> = Vec::new();
    let mut i: usize = 0;
    while i < edges.len()
        invariant
            i <= edges@.len(),
            order@.len() == i,
            relations_ascending(edges@, order@),
            forall|p: int| 0 <= p < i ==> #[trigger] order@.contains(p as usize),
            forall|m: int| 0 <= m < order@.len() ==> #[trigger] order@[m] < i,
            forall|k: int| 0 <= k < i ==> !#[trigger] repeats_relation(edges@, k),
            *envelope == *old(envelope),
        decreases edges.len() - i,
    {
        if control.stopped() {
            halt(envelope, control);
            return Ok((order, true));
        }
        match relation_slot(edges, &order, i) {
            None => {
                proof {
                    let m = choose|m: int|
                        0 <= m < order@.len() && #[trigger] key(edges@[order@[m] as int].id)
                            == key(edges@[i as int].id);
                    assert(key(edges@[order@[m] as int].id) == key(edges@[i as int].id));
                    assert(repeats_relation(edges@, i as int));
                }
                return Err(invalid("duplicate relation identity"));
            },
            Some(at) => {
                proof {
                    if repeats_relation(edges@, i as int) {
                        let k = choose|k: int|
                            0 <= k < i && #[trigger] key(edges@[k].id) == key(edges@[i as int].id);
                        assert(order@.contains(k as usize));
                        let m = choose|m: int| 0 <= m < order@.len() && order@[m] == k as usize;
                        assert(key(edges@[order@[m] as int].id) == key(edges@[i as int].id));
                        lemma_lex_irreflexive(key(edges@[i as int].id));
                    }
                }
                let ghost before = order@;
                order.insert(at, i);
                proof {
                    assert(order@ =~= before.insert(at as int, i));
                    assert forall|a: int, b: int| 0 <= a < b < order@.len() implies lex_lt(
                        key(#[trigger] edges@[order@[a] as int].id),
                        key(#[trigger] edges@[order@[b] as int].id),
                    ) by {
                        if b < at {
                        } else if b == at {
                        } else if a < at {
                            assert(order@[b] == before[b - 1]);
                        } else if a == at {
                            assert(order@[b] == before[b - 1]);
                        } else {
                            assert(order@[a] == before[a - 1]);
                            assert(order@[b] == before[b - 1]);
                        }
                    }
                    assert forall|p: int| 0 <= p < i + 1 implies #[trigger] order@.contains(p as usize) by {
                        if p == i {
                            assert(order@[at as int] == i);
                        } else {
                            assert(before.contains(p as usize));
                            let m = choose|m: int| 0 <= m < before.len() && before[m] == p as usize;
                            if m < at {
                                assert(order@[m] == p as usize);
                            } else {
                                assert(order@[m + 1] == p as usize);
                            }
                        }
                    }
                    assert forall|m: int| 0 <= m < order@.len() implies #[trigger] order@[m] < i + 1 by {
                        if m < at {
                            assert(order@[m] == before[m]);
                        } else if m > at {
                            assert(order@[m] == before[m - 1]);
                        }
                    }
                }
            },
        }
        i += 1;
    }
    Ok((order, false))
}

/// Whether a relation is a call site.
pub open spec fn is_call(r: Relation) -> bool {
    r.kind@ == "calls"@
}

/// Whether `kept` holds the retained nodes: positions in ascending identity order, at most
/// `max` of them, the smallest identities first.
pub open spec fn kept_nodes(n: Seq<Definition>, max: int, kept: Seq<usize>) -> bool {
    &&& nodes_ascending(n, kept)
    &&& kept.len() <= max
    &&& forall|i: int|
        0 <= i < n.len() ==> #[trigger] kept.contains(i as usize) || (kept.len() == max && lex_lt(
            key(n[kept.last() as int].id),
            key(n[i].id),
        ))
}

/// Whether `kept` holds the retained call sites: `calls` relations in ascending identity
/// order, at most `max` of them, the smallest identities first.
pub open spec fn kept_calls(e: Seq<Relation>, max: int, kept: Seq<usize>) -> bool {
    &&& relations_ascending(e, kept)
    &&& kept.len() <= max
    &&& forall|m: int| 0 <= m < kept.len() ==> is_call(#[trigger] e[kept[m] as int])
    &&& forall|q: int|
        0 <= q < e.len() && is_call(e[q]) ==> #[trigger] kept.contains(q as usize) || (kept.len()
            == max && lex_lt(key(e[kept.last() as int].id), key(e[q].id)))
}

/// The call sites among `order` (ascending identity order), at most `max` of them, and
/// whether any call site was left out.
fn keep_calls(edges: &[Relation], order: &Vec<usize>, max: usize) -> (r: (Vec<usize>, bool))
    requires
        relations_ascending(edges@, order@),
        max >= 1,
    ensures
        relations_ascending(edges@, r.0@),
        r.0@.len() <= max,
        forall|m: int| 0 <= m < r.0@.len() ==> is_call(#[trigger] edges@[r.0@[m] as int]),
        forall|m: int| 0 <= m < r.0@.len() ==> #[trigger] order@.contains(r.0@[m]),
        forall|a: int|
            0 <= a < order@.len() && is_call(edges@[order@[a] as int]) ==> #[trigger] r.0@.contains(
                order@[a],
            ) || (r.0@.len() == max && lex_lt(
                key(edges@[r.0@.last() as int].id),
                key(edges@[order@[a] as int].id),
            )),
        r.1 <==> exists|a: int|
            0 <= a < order@.len() && is_call(edges@[order@[a] as int]) && !(#[trigger] r.0@.contains(
                order@[a],
            )),
{
    let mut kept: Vec<usize> = Vec::new();
    let mut dropped = false;
    let mut a: usize = 0;
    while a < order.len()
        invariant
            a <= order@.len(),
            max >= 1,
            relations_ascending(edges@, order@),
            relations_ascending(edges@, kept@),
            kept@.len() <= max,
            forall|m: int| 0 <= m < kept@.len() ==> is_call(#[trigger] edges@[kept@[m] as int]),
            forall|m: int| 0 <= m < kept@.len() ==> #[trigger] order@.contains(kept@[m]),
            forall|m: int, b: int|
                0 <= m < kept@.len() && a <= b < order@.len() ==> lex_lt(
                    key(edges@[#[trigger] kept@[m] as int].id),
                    key(edges@[#[trigger] order@[b] as int].id),
                ),
            forall|b: int|
                0 <= b < a && is_call(edges@[order@[b] as int]) && !(#[trigger] kept@.contains(
                    order@[b],
                )) ==> kept@.len() == max && forall|m: int|
                    0 <= m < kept@.len() ==> lex_lt(
                        key(edges@[#[trigger] kept@[m] as int].id),
                        key(edges@[order@[b] as int].id),
                    ),
            dropped <==> exists|b: int|
                0 <= b < a && is_call(edges@[order@[b] as int]) && !(#[trigger] kept@.contains(
                    order@[b],
                )),
        decreases order.len() - a,
    {
        if text_is(edges[order[a]].kind.as_str(), "calls") && kept.len() < max {
            let ghost before = kept@;
            kept.push(order[a]);
            proof {
                assert forall|m: int| 0 <= m < kept@.len() implies #[trigger] order@.contains(
                    kept@[m],
                ) by {
                    if m == before.len() {
                        assert(order@[a as int] == kept@[m]);
                    } else {
                        assert(kept@[m] == before[m]);
                    }
                }
                assert forall|m: int, b: int|
                    0 <= m < kept@.len() && a + 1 <= b < order@.len() implies lex_lt(
                    key(edges@[#[trigger] kept@[m] as int].id),
                    key(edges@[#[trigger] order@[b] as int].id),
                ) by {
                    if m == before.len() {
                    } else {
                        assert(kept@[m] == before[m]);
                    }
                }
                assert forall|b: int|
                    0 <= b < a + 1 && is_call(edges@[order@[b] as int]) && !(
                    #[trigger] kept@.contains(order@[b])) implies kept@.len() == max && forall|m: int|
                    0 <= m < kept@.len() ==> lex_lt(
                        key(edges@[#[trigger] kept@[m] as int].id),
                        key(edges@[order@[b] as int].id),
                    ) by {
                    if b == a {
                        assert(kept@[before.len() as int] == order@[b]);
                    } else {
                        if !before.contains(order@[b]) {
                            assert(before.len() == max);
                        } else {
                            let m = choose|m: int| 0 <= m < before.len() && before[m] == order@[b];
                            assert(kept@[m] == order@[b]);
                        }
                    }
                }
                if dropped {
                    let b = choose|b: int|
                        0 <= b < a && is_call(edges@[order@[b] as int]) && !(
                        #[trigger] before.contains(order@[b]));
                    assert(before.len() == max);
                }
                assert(!dropped) by {
                    if dropped {
                        let b = choose|b: int|
                            0 <= b < a && is_call(edges@[order@[b] as int]) && !(
                            #[trigger] before.contains(order@[b]));
                        assert(before.len() == max);
                    }
                }
                assert forall|b: int|
                    0 <= b < a + 1 && is_call(edges@[order@[b] as int]) implies #[trigger] kept@.contains(
                    order@[b],
                ) by {
                    if b == a {
                        assert(kept@[before.len() as int] == order@[b]);
                    } else {
                        if !before.contains(order@[b]) {
                            assert(before.len() == max);
                        } else {
                            let m = choose|m: int| 0 <= m < before.len() && before[m] == order@[b];
                            assert(kept@[m] == order@[b]);
                        }
                    }
                }
            }
        } else if text_is(edges[order[a]].kind.as_str(), "calls") {
            proof {
                assert(!kept@.contains(order@[a as int])) by {
                    if kept@.contains(order@[a as int]) {
                        let m = choose|m: int| 0 <= m < kept@.len() && kept@[m] == order@[a as int];
                        lemma_lex_irreflexive(key(edges@[order@[a as int] as int].id));
                    }
                }
            }
            dropped = true;
        }
        a += 1;
    }
    (kept, dropped)
}


/// The first `max` positions of `order`.
fn keep_nodes(order: &Vec<usize>, max: usize) -> (r: Vec<usize>)
    ensures
        r@ == order@.take(if order@.len() < max { order@.len() as int } else { max as int }),
{
    let mut kept: Vec<usize> = Vec::new();
    let mut a: usize = 0;
    while a < order.len() && a < max
        invariant
            a <= order@.len(),
            a <= max,
            kept@ == order@.take(a as int),
        decreases order.len() - a,
    {
        kept.push(order[a]);
        proof {
            assert(kept@ =~= order@.take(a + 1));
        }
        a += 1;
    }
    kept
}

/// The ordering key of a relation's target.
fn target_bytes(r: &Relation) -> (out: &[u8])
    ensures
        out@ == target_key(*r),
{
    match &r.target {
        Target::Resolved { id } => bytes_of(id),
        Target::Unknown { .. } => {
            let empty: &[u8] = &[];
            proof {
                assert(empty@ =~= Seq::<u8>::empty());
            }
            empty
        },
    }
}

/// Whether the call site at `a` is handled before the one at `b`: call sites are handled
/// in descending order of target identity, then of call-site identity.
pub open spec fn handled_before(e: Seq<Relation>, a: usize, b: usize) -> bool {
    lex_lt(target_key(e[b as int]), target_key(e[a as int])) || (target_key(e[a as int])
        == target_key(e[b as int]) && lex_lt(key(e[b as int].id), key(e[a as int].id)))
}

fn goes_before(edges: &[Relation], a: usize, b: usize) -> (r: bool)
    requires
        a < edges@.len(),
        b < edges@.len(),
    ensures
        r == handled_before(edges@, a, b),
{
    let ta = target_bytes(&edges[a]);
    let tb = target_bytes(&edges[b]);
    if bytes_lt(tb, ta) {
        true
    } else if bytes_eq(ta, tb) {
        bytes_lt(bytes_of(&edges[b].id), bytes_of(&edges[a].id))
    } else {
        false
    }
}

proof fn lemma_handled_total(e: Seq<Relation>, a: usize, b: usize)
    requires
        a < e.len(),
        b < e.len(),
        key(e[a as int].id) != key(e[b as int].id),
    ensures
        handled_before(e, a, b) || handled_before(e, b, a),
        !(handled_before(e, a, b) && handled_before(e, b, a)),
{
    lemma_lex_total(target_key(e[a as int]), target_key(e[b as int]));
    lemma_lex_total(key(e[a as int].id), key(e[b as int].id));
}

proof fn lemma_handled_transitive(e: Seq<Relation>, a: usize, b: usize, c: usize)
    requires
        a < e.len(),
        b < e.len(),
        c < e.len(),
        handled_before(e, a, b),
        handled_before(e, b, c),
    ensures
        handled_before(e, a, c),
{
    let (ta, tb, tc) = (target_key(e[a as int]), target_key(e[b as int]), target_key(e[c as int]));
    if lex_lt(tb, ta) && lex_lt(tc, tb) {
        lemma_lex_transitive(tc, tb, ta);
    } else if lex_lt(tb, ta) {
    } else if lex_lt(tc, tb) {
    } else {
        lemma_lex_transitive(key(e[c as int].id), key(e[b as int].id), key(e[a as int].id));
    }
}

/// Whether `p` lists the call sites of `kept` in handling order.
pub open spec fn handling_order(e: Seq<Relation>, kept: Seq<usize>, p: Seq<usize>) -> bool {
    &&& p.len() == kept.len()
    &&& forall|m: int| 0 <= m < p.len() ==> #[trigger] kept.contains(p[m])
    &&& forall|m: int| 0 <= m < kept.len() ==> #[trigger] p.contains(kept[m])
    &&& forall|a: int, b: int|
        0 <= a < b < p.len() ==> handled_before(e, #[trigger] p[a], #[trigger] p[b])
}

/// The call sites of `kept` in handling order.
fn handling(edges: &[Relation], kept: &Vec<usize>) -> (p: Vec<usize>)
    requires
        relations_ascending(edges@, kept@),
    ensures
        handling_order(edges@, kept@, p@),
{
    let mut p: Vec<usize> = Vec::new();
    let mut i: usize = 0;
    while i < kept.len()
        invariant
            i <= kept@.len(),
            relations_ascending(edges@, kept@),
            p@.len() == i,
            forall|m: int| 0 <= m < p@.len() ==> #[trigger] p@[m] < edges@.len(),
            forall|m: int| 0 <= m < p@.len() ==> #[trigger] kept@.take(i as int).contains(p@[m]),
            forall|m: int| 0 <= m < i ==> #[trigger] p@.contains(kept@[m]),
            forall|a: int, b: int|
                0 <= a < b < p@.len() ==> handled_before(edges@, #[trigger] p@[a], #[trigger] p@[b]),
        decreases kept.len() - i,
    {
        let x = kept[i];
        proof {
            assert(x < edges@.len());
        }
        let mut at: usize = 0;
        while at < p.len() && goes_before(edges, p[at], x)
            invariant
                at <= p@.len(),
                i < kept@.len(),
                x == kept@[i as int],
                relations_ascending(edges@, kept@),
                forall|m: int| 0 <= m < p@.len() ==> #[trigger] p@[m] < edges@.len(),
                forall|m: int| 0 <= m < p@.len() ==> #[trigger] kept@.take(i as int).contains(p@[m]),
                forall|m: int| 0 <= m < at ==> handled_before(edges@, #[trigger] p@[m], x),
            decreases p.len() - at,
        {
            at += 1;
        }
        let ghost before = p@;
        proof {
            assert forall|m: int| at <= m < before.len() implies handled_before(edges@, x, #[trigger] before[m]) by {
                assert(kept@.take(i as int).contains(before[m]));
                let k = choose|k: int| 0 <= k < i && kept@.take(i as int)[k] == before[m];
                assert(kept@[k] == before[m]);
                assert(lex_lt(key(edges@[kept@[k] as int].id), key(edges@[kept@[i as int] as int].id)));
                lemma_lex_irreflexive(key(edges@[x as int].id));
                lemma_handled_total(edges@, x, before[m]);
                if m > at {
                    assert(handled_before(edges@, before[at as int], before[m]));
                    assert(kept@.take(i as int).contains(before[at as int]));
                    let k2 = choose|k2: int| 0 <= k2 < i && kept@.take(i as int)[k2] == before[at as int];
                    assert(kept@[k2] == before[at as int]);
                    assert(lex_lt(key(edges@[kept@[k2] as int].id), key(edges@[kept@[i as int] as int].id)));
                    lemma_handled_total(edges@, x, before[at as int]);
                    lemma_handled_transitive(edges@, x, before[at as int], before[m]);
                }
            }
        }
        p.insert(at, x);
        proof {
            assert(p@ =~= before.insert(at as int, x));
            assert forall|a: int, b: int| 0 <= a < b < p@.len() implies handled_before(
                edges@,
                #[trigger] p@[a],
                #[trigger] p@[b],
            ) by {
                if b < at {
                } else if b == at {
                } else if a < at {
                    assert(p@[b] == before[b - 1]);
                    lemma_handled_transitive(edges@, p@[a], x, p@[b]);
                } else if a == at {
                    assert(p@[b] == before[b - 1]);
                } else {
                    assert(p@[a] == before[a - 1]);
                    assert(p@[b] == before[b - 1]);
                }
            }
            assert forall|m: int| 0 <= m < p@.len() implies #[trigger] kept@.take(i + 1).contains(p@[m]) by {
                if m == at {
                    assert(kept@.take(i + 1)[i as int] == x);
                } else {
                    let old_m = if m < at { m } else { m - 1 };
                    assert(p@[m] == before[old_m]);
                    assert(kept@.take(i as int).contains(before[old_m]));
                    let k = choose|k: int| 0 <= k < i && kept@.take(i as int)[k] == before[old_m];
                    assert(kept@.take(i + 1)[k] == before[old_m]);
                }
            }
            assert forall|m: int| 0 <= m < i + 1 implies #[trigger] p@.contains(kept@[m]) by {
                if m == i {
                    assert(p@[at as int] == x);
                } else {
                    assert(before.contains(kept@[m]));
                    let k = choose|k: int| 0 <= k < before.len() && before[k] == kept@[m];
                    if k < at {
                        assert(p@[k] == kept@[m]);
                    } else {
                        assert(p@[k + 1] == kept@[m]);
                    }
                }
            }
        }
        i += 1;
    }
    proof {
        assert(kept@.take(i as int) =~= kept@);
    }
    p
}

/// The graph index of the selected node with identity `k`: its place among `sel`.
pub open spec fn slot_of(n: Seq<Definition>, sel: Seq<usize>, k: Seq<u8>) -> Option<int> {
    if exists|m: int| 0 <= m < sel.len() && #[trigger] key(n[sel[m] as int].id) == k {
        Some(choose|m: int| 0 <= m < sel.len() && #[trigger] key(n[sel[m] as int].id) == k)
    } else {
        None
    }
}

/// The graph index of a call site's source, if it is selected.
pub open spec fn source_slot(n: Seq<Definition>, sel: Seq<usize>, e: Seq<Relation>, j: usize) -> Option<
    int,
> {
    slot_of(n, sel, key(e[j as int].source))
}

/// The graph index of a call site's resolved target, if it is selected.
pub open spec fn target_slot(n: Seq<Definition>, sel: Seq<usize>, e: Seq<Relation>, j: usize) -> Option<
    int,
> {
    match e[j as int].target {
        Target::Resolved { id } => slot_of(n, sel, key(id)),
        Target::Unknown { .. } => None,
    }
}

/// The reason recorded for a call site that leaves the graph.
pub open spec fn leaving_reason(r: Relation) -> UnknownReason {
    match r.target {
        Target::Unknown { reason, .. } => reason,
        Target::Resolved { .. } => UnknownReason::ExternalBoundary,
    }
}

pub open spec fn outside_message() -> Seq<char> {
    "Call sites from outside the selected node set were omitted"@
}

pub open spec fn frontier_message() -> Seq<char> {
    "Unresolved or unselected call targets remain explicit unknown frontiers"@
}

/// Targets of the graph edges from each selected node after handling the call sites `p`,
/// in handling order.
pub open spec fn targets_after(
    n: Seq<Definition>,
    sel: Seq<usize>,
    e: Seq<Relation>,
    p: Seq<usize>,
) -> Seq<Seq<usize>>
    decreases p.len(),
{
    if p.len() == 0 {
        Seq::new(sel.len(), |i: int| Seq::<usize>::empty())
    } else {
        let prior = targets_after(n, sel, e, p.drop_last());
        let j = p.last();
        match (source_slot(n, sel, e, j), target_slot(n, sel, e, j)) {
            (Some(s), Some(t)) => prior.update(s, prior[s].push(t as usize)),
            _ => prior,
        }
    }
}

/// The call sites behind those graph edges, parallel to `targets_after`.
pub open spec fn sites_after(
    n: Seq<Definition>,
    sel: Seq<usize>,
    e: Seq<Relation>,
    p: Seq<usize>,
) -> Seq<Seq<usize>>
    decreases p.len(),
{
    if p.len() == 0 {
        Seq::new(sel.len(), |i: int| Seq::<usize>::empty())
    } else {
        let prior = sites_after(n, sel, e, p.drop_last());
        let j = p.last();
        match (source_slot(n, sel, e, j), target_slot(n, sel, e, j)) {
            (Some(s), Some(t)) => prior.update(s, prior[s].push(j)),
            _ => prior,
        }
    }
}

/// Per selected node, how many of its call sites leave the graph.
pub open spec fn leaving_after(
    n: Seq<Definition>,
    sel: Seq<usize>,
    e: Seq<Relation>,
    p: Seq<usize>,
) -> Seq<int>
    decreases p.len(),
{
    if p.len() == 0 {
        Seq::new(sel.len(), |i: int| 0int)
    } else {
        let prior = leaving_after(n, sel, e, p.drop_last());
        let j = p.last();
        match (source_slot(n, sel, e, j), target_slot(n, sel, e, j)) {
            (Some(s), None) => prior.update(s, prior[s] + 1),
            _ => prior,
        }
    }
}

/// How many handled call sites have a selected source.
pub open spec fn count_after(n: Seq<Definition>, sel: Seq<usize>, e: Seq<Relation>, p: Seq<usize>) -> int
    decreases p.len(),
{
    if p.len() == 0 {
        0
    } else {
        count_after(n, sel, e, p.drop_last()) + if source_slot(n, sel, e, p.last()) is Some {
            1int
        } else {
            0int
        }
    }
}

/// The call sites that leave the graph, with their reasons, in handling order.
pub open spec fn frontier_after(
    n: Seq<Definition>,
    sel: Seq<usize>,
    e: Seq<Relation>,
    p: Seq<usize>,
) -> Seq<(usize, UnknownReason)>
    decreases p.len(),
{
    if p.len() == 0 {
        Seq::empty()
    } else {
        let prior = frontier_after(n, sel, e, p.drop_last());
        let j = p.last();
        match (source_slot(n, sel, e, j), target_slot(n, sel, e, j)) {
            (None, _) => prior.push((j, UnknownReason::ExternalBoundary)),
            (Some(s), None) => prior.push((j, leaving_reason(e[j as int]))),
            _ => prior,
        }
    }
}

/// The coverage gaps recorded while handling the call sites `p`.
pub open spec fn gaps_after(
    n: Seq<Definition>,
    sel: Seq<usize>,
    e: Seq<Relation>,
    p: Seq<usize>,
) -> Seq<(UnknownReason, Seq<char>)>
    decreases p.len(),
{
    if p.len() == 0 {
        Seq::empty()
    } else {
        let prior = gaps_after(n, sel, e, p.drop_last());
        let j = p.last();
        match (source_slot(n, sel, e, j), target_slot(n, sel, e, j)) {
            (None, _) => prior.push((UnknownReason::ExternalBoundary, outside_message())),
            (Some(s), None) => prior.push((leaving_reason(e[j as int]), frontier_message())),
            _ => prior,
        }
    }
}

/// Finds the graph index of identity `k` among the selected nodes.
fn find_slot(nodes: &[Definition], sel: &Vec<usize>, k: &[u8]) -> (r: Option<usize>)
    requires
        nodes_ascending(nodes@, sel@),
    ensures
        r matches Some(m) ==> slot_of(nodes@, sel@, k@) == Some(m as int) && m < sel@.len(),
        r is None ==> slot_of(nodes@, sel@, k@) is None,
{
    let mut m: usize = 0;
    while m < sel.len()
        invariant
            m <= sel@.len(),
            nodes_ascending(nodes@, sel@),
            forall|a: int| 0 <= a < m ==> #[trigger] key(nodes@[sel@[a] as int].id) != k@,
        decreases sel.len() - m,
    {
        if bytes_eq(bytes_of(&nodes[sel[m]].id), k) {
            proof {
                assert(key(nodes@[sel@[m as int] as int].id) == k@);
                let c = choose|c: int|
                    0 <= c < sel@.len() && #[trigger] key(nodes@[sel@[c] as int].id) == k@;
                if c != m {
                    lemma_lex_irreflexive(k@);
                }
            }
            return Some(m);
        }
        m += 1;
    }
    None
}

/// Whether a report records that its analysis stopped early.
pub open spec fn stopped_env(env: AnalysisEnvelope) -> bool {
    crate::envelope::stop_recorded(env)
}

/// Recording more gaps keeps every limitation already recorded.
proof fn lemma_gaps_keep(
    m: (crate::model::Status, Seq<crate::model::ReasonCount>, Seq<Seq<char>>),
    gaps: Seq<(UnknownReason, Seq<char>)>,
    text: Seq<char>,
)
    requires
        m.2.contains(text),
    ensures
        with_gaps(m, gaps).2.contains(text),
    decreases gaps.len(),
{
    if gaps.len() > 0 {
        lemma_gaps_keep(m, gaps.drop_last(), text);
        let prior = with_gaps(m, gaps.drop_last());
        reveal(with_gap);
        if !prior.2.contains(text) {
        } else {
            let k = choose|k: int| 0 <= k < prior.2.len() && prior.2[k] == text;
            let next = add_limitation(prior.2, gaps.last().1);
            assert(next[k] == text);
        }
    }
}

proof fn lemma_stop_recorded(m: (crate::model::Status, Seq<crate::model::ReasonCount>, Seq<Seq<char>>))
    ensures
        with_gaps(m, seq![stop_gap()]).2.contains(stopped_message()),
{
    let none = Seq::<(UnknownReason, Seq<char>)>::empty();
    lemma_with_gaps_push(m, none, stop_gap().0, stop_gap().1);
    assert(none.push(stop_gap()) =~= seq![stop_gap()]);
    crate::model::lemma_gap_recorded(m, stop_gap().0, stop_gap().1);
}

/// `v` with `x` appended.
fn appended(v: &Vec<usize>, x: usize) -> (r: Vec<usize>)
    ensures
        r@ == v@.push(x),
{
    let mut r: Vec<usize> = Vec::new();
    let mut i: usize = 0;
    while i < v.len()
        invariant
            i <= v@.len(),
            r@ == v@.take(i as int),
        decreases v.len() - i,
    {
        r.push(v[i]);
        proof {
            assert(r@ =~= v@.take(i + 1));
        }
        i += 1;
    }
    r.push(x);
    proof {
        assert(v@.take(i as int) =~= v@);
    }
    r
}

proof fn lemma_after_widths(n: Seq<Definition>, sel: Seq<usize>, e: Seq<Relation>, p: Seq<usize>)
    ensures
        targets_after(n, sel, e, p).len() == sel.len(),
        sites_after(n, sel, e, p).len() == sel.len(),
        leaving_after(n, sel, e, p).len() == sel.len(),
    decreases p.len(),
{
    if p.len() > 0 {
        lemma_after_widths(n, sel, e, p.drop_last());
    }
}

/// The graph built from the handled call sites.
struct Handled {
    targets: Vec<Vec<usize>>,
    sites: Vec<Vec<usize>>,
    leaving: Vec<u32>,
    count: usize,
    frontier: Vec<(usize, UnknownReason)>,
}

/// Whether `h` is well formed over `width` selected nodes and `e`.
pub open spec fn handled_shape(h_targets: Seq<Seq<usize>>, h_sites: Seq<Seq<usize>>, width: int, e: Seq<Relation>) -> bool {
    &&& h_targets.len() == width
    &&& h_sites.len() == width
    &&& forall|s: int| 0 <= s < width ==> (#[trigger] h_targets[s]).len() == h_sites[s].len()
    &&& forall|s: int, k: int| 0 <= s < width && 0 <= k < h_targets[s].len() ==> #[trigger] h_targets[s][k] < width
    &&& forall|s: int, k: int| 0 <= s < width && 0 <= k < h_sites[s].len() ==> #[trigger] h_sites[s][k] < e.len()
}

/// Handles the call sites `p` in order, stopping early when asked: builds the graph edges
/// between selected nodes and records the call sites that leave the graph.
fn handle_sites(
    nodes: &[Definition],
    edges: &[Relation],
    sel: &Vec<usize>,
    p: &Vec<usize>,
    envelope: &mut AnalysisEnvelope,
    control: &AnalysisControl,
) -> (r: (Handled, bool))
    requires
        nodes_ascending(nodes@, sel@),
        forall|m: int| 0 <= m < p@.len() ==> #[trigger] p@[m] < edges@.len(),
        p@.len() <= 50_000,
        forall|a: int, b: int|
            0 <= a < b < p@.len() ==> key(edges@[#[trigger] p@[a] as int].id) != key(edges@[#[trigger] p@[b] as int].id),
    ensures
        handled_shape(adj_view(r.0.targets@), adj_view(r.0.sites@), sel@.len() as int, edges@),
        forall|x: int| 0 <= x < sel@.len() ==> (#[trigger] r.0.targets@[x])@.len() <= p@.len(),
        forall|x: int| 0 <= x < sel@.len() ==> #[trigger] r.0.leaving@[x] <= p@.len(),
        r.0.count <= p@.len(),
        forall|a: int, b: int|
            0 <= a < b < r.0.frontier@.len() ==> key(edges@[(#[trigger] r.0.frontier@[a]).0 as int].id) != key(
                edges@[(#[trigger] r.0.frontier@[b]).0 as int].id,
            ),
        r.0.leaving@.len() == sel@.len(),
        forall|m: int| 0 <= m < r.0.frontier@.len() ==> (#[trigger] r.0.frontier@[m]).0 < edges@.len(),
        !r.1 ==> {
            &&& adj_view(r.0.targets@) == targets_after(nodes@, sel@, edges@, p@)
            &&& adj_view(r.0.sites@) == sites_after(nodes@, sel@, edges@, p@)
            &&& forall|s: int| 0 <= s < sel@.len() ==> r.0.leaving@[s] == #[trigger] leaving_after(nodes@, sel@, edges@, p@)[s]
            &&& r.0.count == count_after(nodes@, sel@, edges@, p@)
            &&& r.0.frontier@ == frontier_after(nodes@, sel@, edges@, p@)
            &&& envelope_step(*old(envelope), *final(envelope), gaps_after(nodes@, sel@, edges@, p@))
            &&& final(envelope).truncated == old(envelope).truncated
            &&& final(envelope).cancelled == old(envelope).cancelled
            &&& final(envelope).deadline_reached == old(envelope).deadline_reached
        },
        r.1 ==> stopped_env(*final(envelope)) && final(envelope).truncated
            && final(envelope).algorithm_version == old(envelope).algorithm_version
            && final(envelope).assumptions == old(envelope).assumptions,
{
    let width = sel.len();
    let mut targets: Vec<Vec<usize>> = Vec::new();
    let mut sites: Vec<Vec<usize>> = Vec::new();
    let mut leaving: Vec<u32> = Vec::new();
    let mut w: usize = 0;
    while w < width
        invariant
            w <= width,
            width == sel@.len(),
            targets@.len() == w,
            sites@.len() == w,
            leaving@.len() == w,
            forall|s: int| 0 <= s < w ==> (#[trigger] targets@[s])@.len() == 0,
            forall|s: int| 0 <= s < w ==> (#[trigger] sites@[s])@.len() == 0,
            forall|s: int| 0 <= s < w ==> #[trigger] leaving@[s] == 0,
        decreases width - w,
    {
        targets.push(Vec::new());
        sites.push(Vec::new());
        leaving.push(0);
        w += 1;
    }
    proof {
        assert forall|x: int| 0 <= x < width implies adj_view(targets@)[x] =~= Seq::<usize>::empty() by {}
        assert forall|x: int| 0 <= x < width implies adj_view(sites@)[x] =~= Seq::<usize>::empty() by {}
        assert(adj_view(targets@) =~= targets_after(nodes@, sel@, edges@, p@.take(0)));
        assert(adj_view(sites@) =~= sites_after(nodes@, sel@, edges@, p@.take(0)));
        assert(gaps_after(nodes@, sel@, edges@, p@.take(0)) =~= Seq::<(UnknownReason, Seq<char>)>::empty());
    }
    let mut frontier: Vec<(usize, UnknownReason)> = Vec::new();
    let mut count: usize = 0;
    let ghost start = *envelope;
    let mut k: usize = 0;
    while k < p.len()
        invariant
            k <= p@.len(),
            p@.len() <= 50_000,
            width == sel@.len(),
            nodes_ascending(nodes@, sel@),
            forall|m: int| 0 <= m < p@.len() ==> #[trigger] p@[m] < edges@.len(),
            forall|a: int, b: int|
                0 <= a < b < p@.len() ==> key(edges@[#[trigger] p@[a] as int].id) != key(edges@[#[trigger] p@[b] as int].id),
            start == *old(envelope),
            handled_shape(adj_view(targets@), adj_view(sites@), width as int, edges@),
            forall|x: int| 0 <= x < width ==> (#[trigger] targets@[x])@.len() <= k,
            leaving@.len() == width,
            forall|s: int| 0 <= s < width ==> #[trigger] leaving@[s] <= k,
            count <= k,
            forall|m: int| 0 <= m < frontier@.len() ==> (#[trigger] frontier@[m]).0 < edges@.len(),
            adj_view(targets@) == targets_after(nodes@, sel@, edges@, p@.take(k as int)),
            adj_view(sites@) == sites_after(nodes@, sel@, edges@, p@.take(k as int)),
            forall|s: int| 0 <= s < width ==> leaving@[s] == #[trigger] leaving_after(nodes@, sel@, edges@, p@.take(k as int))[s],
            count == count_after(nodes@, sel@, edges@, p@.take(k as int)),
            frontier@ == frontier_after(nodes@, sel@, edges@, p@.take(k as int)),
            envelope_step(start, *envelope, gaps_after(nodes@, sel@, edges@, p@.take(k as int))),
            envelope.truncated == start.truncated,
            envelope.cancelled == start.cancelled,
            envelope.deadline_reached == start.deadline_reached,
        decreases p.len() - k,
    {
        if control.stopped() {
            let ghost before = *envelope;
            halt(envelope, control);
            proof {
                let g = gaps_after(nodes@, sel@, edges@, p@.take(k as int));
                lemma_with_gaps_push(coverage_view(start.coverage), g, stop_gap().0, stop_gap().1);
                let none = Seq::<(UnknownReason, Seq<char>)>::empty();
                lemma_with_gaps_push(coverage_view(before.coverage), none, stop_gap().0, stop_gap().1);
                assert(none.push(stop_gap()) =~= seq![stop_gap()]);
                crate::model::lemma_gap_recorded(coverage_view(before.coverage), stop_gap().0, stop_gap().1);
                let q = p@.take(k as int);
                assert forall|a: int, b: int| 0 <= a < b < q.len() implies key(edges@[#[trigger] q[a] as int].id) != key(edges@[#[trigger] q[b] as int].id) by {
                    assert(q[a] == p@[a] && q[b] == p@[b]);
                }
                lemma_frontier_from(nodes@, sel@, edges@, q);
            }
            let h = Handled { targets, sites, leaving, count, frontier };
            return (h, true);
        }
        let j = p[k];
        let ghost prefix = p@.take(k as int);
        proof {
            assert(p@.take(k + 1).drop_last() =~= prefix);
            assert(p@.take(k + 1).last() == j);
            lemma_after_widths(nodes@, sel@, edges@, prefix);
            lemma_after_widths(nodes@, sel@, edges@, p@.take(k + 1));
        }
        let ghost before = *envelope;
        match find_slot(nodes, sel, bytes_of(&edges[j].source)) {
            None => {
                envelope.partial(UnknownReason::ExternalBoundary, "Call sites from outside the selected node set were omitted");
                frontier.push((j, UnknownReason::ExternalBoundary));
                proof {
                    assert(source_slot(nodes@, sel@, edges@, j) is None);
                    lemma_with_gaps_push(coverage_view(start.coverage), gaps_after(nodes@, sel@, edges@, prefix), UnknownReason::ExternalBoundary, outside_message());
                    assert(targets_after(nodes@, sel@, edges@, p@.take(k + 1)) == targets_after(nodes@, sel@, edges@, prefix));
                    assert(sites_after(nodes@, sel@, edges@, p@.take(k + 1)) == sites_after(nodes@, sel@, edges@, prefix));
                    assert(leaving_after(nodes@, sel@, edges@, p@.take(k + 1)) == leaving_after(nodes@, sel@, edges@, prefix));
                    assert(frontier@ =~= frontier_after(nodes@, sel@, edges@, p@.take(k + 1)));
                }
            },
            Some(s) => {
                count += 1;
                let target = match &edges[j].target {
                    Target::Resolved { id } => find_slot(nodes, sel, bytes_of(id)),
                    Target::Unknown { .. } => None,
                };
                proof {
                    assert(source_slot(nodes@, sel@, edges@, j) == Some(s as int));
                    assert(target matches Some(t) ==> target_slot(nodes@, sel@, edges@, j) == Some(t as int));
                    assert(target is None ==> target_slot(nodes@, sel@, edges@, j) is None);
                }
                match target {
                    Some(t) => {
                        let row = appended(&targets[s], t);
                        let ghost prior_targets = targets@;
                        targets.set(s, row);
                        proof {
                            assert forall|x: int| 0 <= x < width implies (#[trigger] targets@[x])@.len() <= k + 1 by {
                                if x != s {
                                    assert(targets@[x] == prior_targets[x]);
                                }
                            }
                        }
                        let via = appended(&sites[s], j);
                        sites.set(s, via);
                        proof {
                            assert(adj_view(targets@) =~= targets_after(nodes@, sel@, edges@, p@.take(k + 1)));
                            assert(adj_view(sites@) =~= sites_after(nodes@, sel@, edges@, p@.take(k + 1)));
                            assert(leaving_after(nodes@, sel@, edges@, p@.take(k + 1)) == leaving_after(nodes@, sel@, edges@, prefix));
                            assert(frontier_after(nodes@, sel@, edges@, p@.take(k + 1)) == frontier_after(nodes@, sel@, edges@, prefix));
                            assert(gaps_after(nodes@, sel@, edges@, p@.take(k + 1)) == gaps_after(nodes@, sel@, edges@, prefix));
                        }
                    },
                    None => {
                        let reason = match &edges[j].target {
                            Target::Resolved { .. } => UnknownReason::ExternalBoundary,
                            Target::Unknown { reason, .. } => *reason,
                        };
                        envelope.partial(reason, "Unresolved or unselected call targets remain explicit unknown frontiers");
                        frontier.push((j, reason));
                        let ghost prior_leaving = leaving@;
                        leaving.set(s, leaving[s] + 1);
                        proof {
                            assert(reason == leaving_reason(edges@[j as int]));
                            lemma_with_gaps_push(coverage_view(start.coverage), gaps_after(nodes@, sel@, edges@, prefix), reason, frontier_message());
                            assert(targets_after(nodes@, sel@, edges@, p@.take(k + 1)) == targets_after(nodes@, sel@, edges@, prefix));
                            assert(sites_after(nodes@, sel@, edges@, p@.take(k + 1)) == sites_after(nodes@, sel@, edges@, prefix));
                            let la = leaving_after(nodes@, sel@, edges@, prefix);
                            assert(leaving_after(nodes@, sel@, edges@, p@.take(k + 1)) == la.update(s as int, la[s as int] + 1));
                            assert(frontier@ =~= frontier_after(nodes@, sel@, edges@, p@.take(k + 1)));
                        }
                    },
                }
            },
        }
        k += 1;
    }
    proof {
        assert(p@.take(k as int) =~= p@);
        lemma_frontier_from(nodes@, sel@, edges@, p@);
    }
    let h = Handled { targets, sites, leaving, count, frontier };
    (h, false)
}

/// The unknown-frontier record of a call site that leaves the graph.
pub open spec fn frontier_record(e: Seq<Relation>, x: (usize, UnknownReason)) -> UnknownFrontier {
    UnknownFrontier {
        source: e[x.0 as int].source,
        relation_id: e[x.0 as int].id,
        target_definition_id: match e[x.0 as int].target {
            Target::Resolved { id } => Some(id),
            Target::Unknown { .. } => None,
        },
        reason: x.1,
    }
}

/// Whether frontier record `a` is listed before `b`: by source, then by call site.
pub open spec fn frontier_before(a: UnknownFrontier, b: UnknownFrontier) -> bool {
    lex_lt(key(a.source), key(b.source)) || (key(a.source) == key(b.source) && lex_lt(
        key(a.relation_id),
        key(b.relation_id),
    ))
}

/// The records of the frontier `f`, in handling order.
pub open spec fn frontier_records(e: Seq<Relation>, f: Seq<(usize, UnknownReason)>) -> Seq<UnknownFrontier> {
    f.map_values(|x: (usize, UnknownReason)| frontier_record(e, x))
}

/// Whether `out` lists exactly the records of the frontier `f`, ordered by source and
/// call site.
pub open spec fn frontier_listed(
    e: Seq<Relation>,
    f: Seq<(usize, UnknownReason)>,
    out: Seq<UnknownFrontier>,
) -> bool {
    &&& out.to_multiset() == frontier_records(e, f).to_multiset()
    &&& frontier_sorted(out)
}

fn frontier_record_of(edges: &[Relation], x: (usize, UnknownReason)) -> (r: UnknownFrontier)
    requires
        x.0 < edges@.len(),
    ensures
        r == frontier_record(edges@, x),
{
    let rel = &edges[x.0];
    let target = match &rel.target {
        Target::Resolved { id } => Some(id.clone()),
        Target::Unknown { .. } => None,
    };
    UnknownFrontier {
        source: rel.source.clone(),
        relation_id: rel.id.clone(),
        target_definition_id: target,
        reason: x.1,
    }
}

fn listed_before(a: &UnknownFrontier, b: &UnknownFrontier) -> (r: bool)
    ensures
        r == frontier_before(*a, *b),
{
    let (sa, sb) = (bytes_of(&a.source), bytes_of(&b.source));
    if bytes_lt(sa, sb) {
        true
    } else if bytes_eq(sa, sb) {
        bytes_lt(bytes_of(&a.relation_id), bytes_of(&b.relation_id))
    } else {
        false
    }
}

proof fn lemma_frontier_order(a: UnknownFrontier, b: UnknownFrontier, c: UnknownFrontier)
    ensures
        key(a.relation_id) != key(b.relation_id) ==> frontier_before(a, b) || frontier_before(b, a),
        !(frontier_before(a, b) && frontier_before(b, a)),
        frontier_before(a, b) && frontier_before(b, c) ==> frontier_before(a, c),
{
    lemma_lex_total(key(a.source), key(b.source));
    lemma_lex_total(key(a.relation_id), key(b.relation_id));
    if frontier_before(a, b) && frontier_before(b, c) {
        if lex_lt(key(a.source), key(b.source)) && lex_lt(key(b.source), key(c.source)) {
            lemma_lex_transitive(key(a.source), key(b.source), key(c.source));
        } else if key(a.source) == key(b.source) && key(b.source) == key(c.source) {
            lemma_lex_transitive(key(a.relation_id), key(b.relation_id), key(c.relation_id));
        }
    }
}

/// Whether `out` is ordered by source and call site.
pub open spec fn frontier_sorted(out: Seq<UnknownFrontier>) -> bool {
    forall|m1: int, m2: int|
        0 <= m1 < m2 < out.len() ==> frontier_before(#[trigger] out[m1], #[trigger] out[m2])
}

/// Inserts `x` at its place; returns the place.
fn insert_record(out: &mut Vec<UnknownFrontier>, x: UnknownFrontier) -> (at: usize)
    requires
        frontier_sorted(old(out)@),
        forall|m: int| 0 <= m < old(out)@.len() ==> key((#[trigger] old(out)@[m]).relation_id) != key(x.relation_id),
    ensures
        at <= old(out)@.len(),
        final(out)@ == old(out)@.insert(at as int, x),
        frontier_sorted(final(out)@),
{
    let mut at: usize = 0;
    while at < out.len() && listed_before(&out[at], &x)
        invariant
            at <= out@.len(),
            forall|m: int| 0 <= m < at ==> frontier_before(#[trigger] out@[m], x),
        decreases out.len() - at,
    {
        at += 1;
    }
    let ghost before = out@;
    proof {
        assert forall|m: int| at <= m < before.len() implies frontier_before(x, #[trigger] before[m]) by {
            lemma_frontier_order(x, before[m], x);
            if m > at {
                lemma_frontier_order(x, before[at as int], before[m]);
                assert(frontier_before(before[at as int], before[m]));
            }
        }
    }
    out.insert(at, x);
    proof {
        assert(out@ =~= before.insert(at as int, x));
        assert forall|m1: int, m2: int| 0 <= m1 < m2 < out@.len() implies frontier_before(
            #[trigger] out@[m1],
            #[trigger] out@[m2],
        ) by {
            if m2 < at {
            } else if m2 == at {
            } else if m1 < at {
                assert(out@[m2] == before[m2 - 1]);
                lemma_frontier_order(out@[m1], x, out@[m2]);
            } else if m1 == at {
                assert(out@[m2] == before[m2 - 1]);
            } else {
                assert(out@[m1] == before[m1 - 1]);
                assert(out@[m2] == before[m2 - 1]);
            }
        }
    }
    at
}

/// The records of the frontier `f`, ordered by source and call site.
fn list_frontier(edges: &[Relation], f: &Vec<(usize, UnknownReason)>) -> (out: Vec<UnknownFrontier>)
    requires
        forall|m: int| 0 <= m < f@.len() ==> (#[trigger] f@[m]).0 < edges@.len(),
        forall|a: int, b: int|
            0 <= a < b < f@.len() ==> key(edges@[(#[trigger] f@[a]).0 as int].id) != key(
                edges@[(#[trigger] f@[b]).0 as int].id,
            ),
    ensures
        frontier_listed(edges@, f@, out@),
{
    let mut out: Vec<UnknownFrontier> = Vec::new();
    let mut i: usize = 0;
    proof {
        assert(frontier_records(edges@, f@.take(0)) =~= Seq::<UnknownFrontier>::empty());
    }
    while i < f.len()
        invariant
            i <= f@.len(),
            forall|m: int| 0 <= m < f@.len() ==> (#[trigger] f@[m]).0 < edges@.len(),
            forall|a: int, b: int|
                0 <= a < b < f@.len() ==> key(edges@[(#[trigger] f@[a]).0 as int].id) != key(
                    edges@[(#[trigger] f@[b]).0 as int].id,
                ),
            frontier_listed(edges@, f@.take(i as int), out@),
        decreases f.len() - i,
    {
        let x = frontier_record_of(edges, f[i]);
        let ghost before = out@;
        let ghost fi = f@.take(i as int);
        let ghost ri = frontier_records(edges@, fi);
        proof {
            before.to_multiset_ensures();
            ri.to_multiset_ensures();
            assert forall|m: int| 0 <= m < before.len() implies key((#[trigger] before[m]).relation_id) != key(x.relation_id) by {
                assert(before.contains(before[m]));
                assert(before.to_multiset().count(before[m]) > 0);
                assert(ri.to_multiset().count(before[m]) > 0);
                assert(ri.contains(before[m]));
                let a = choose|a: int| 0 <= a < ri.len() && ri[a] == before[m];
                assert(fi[a] == f@[a]);
            }
        }
        let at = insert_record(&mut out, x);
        proof {
            let fj = f@.take(i + 1);
            assert(fj =~= fi.push(f@[i as int]));
            assert(frontier_records(edges@, fj) =~= ri.push(x));
            vstd::seq_lib::to_multiset_insert(before, at as int, x);
            vstd::seq_lib::to_multiset_build(ri, x);
        }
        i += 1;
    }
    proof {
        assert(f@.take(i as int) =~= f@);
    }
    out
}

proof fn lemma_frontier_from(n: Seq<Definition>, sel: Seq<usize>, e: Seq<Relation>, p: Seq<usize>)
    requires
        forall|a: int, b: int|
            0 <= a < b < p.len() ==> key(e[#[trigger] p[a] as int].id) != key(e[#[trigger] p[b] as int].id),
    ensures
        forall|m: int|
            0 <= m < frontier_after(n, sel, e, p).len() ==> p.contains(
                (#[trigger] frontier_after(n, sel, e, p)[m]).0,
            ),
        forall|a: int, b: int|
            0 <= a < b < frontier_after(n, sel, e, p).len() ==> key(
                e[(#[trigger] frontier_after(n, sel, e, p)[a]).0 as int].id,
            ) != key(e[(#[trigger] frontier_after(n, sel, e, p)[b]).0 as int].id),
    decreases p.len(),
{
    if p.len() > 0 {
        let q = p.drop_last();
        lemma_frontier_from(n, sel, e, q);
        let f = frontier_after(n, sel, e, p);
        let g = frontier_after(n, sel, e, q);
        assert forall|m: int| 0 <= m < g.len() implies p.contains((#[trigger] g[m]).0) by {
            let k = choose|k: int| 0 <= k < q.len() && q[k] == g[m].0;
            assert(p[k] == q[k]);
        }
        assert forall|m: int| 0 <= m < g.len() implies key(e[(#[trigger] g[m]).0 as int].id) != key(e[p.last() as int].id) by {
            let k = choose|k: int| 0 <= k < q.len() && q[k] == g[m].0;
            assert(p[k] == q[k]);
        }
        assert(p.contains(p.last())) by {
            assert(p[p.len() - 1] == p.last());
        }
    }
}

pub open spec fn truncation_message() -> Seq<char> {
    "Selected graph was truncated; omitted nodes or call sites can change reachability, SCCs and fan counts"@
}

pub open spec fn configuration_message() -> Seq<char> {
    "Selected graph contains inactive or unresolved configuration definitions"@
}

/// The configuration gaps of the selected nodes, in identity order.
pub open spec fn configuration_gaps(n: Seq<Definition>, sel: Seq<usize>) -> Seq<(UnknownReason, Seq<char>)>
    decreases sel.len(),
{
    if sel.len() == 0 {
        Seq::empty()
    } else {
        let prior = configuration_gaps(n, sel.drop_last());
        if n[sel.last() as int].cfg_status != CfgStatus::Active {
            prior.push((UnknownReason::CfgUnknown, configuration_message()))
        } else {
            prior
        }
    }
}

/// Whether some call site was left out of `kept`.
pub open spec fn calls_dropped(e: Seq<Relation>, kept: Seq<usize>) -> bool {
    exists|q: int| 0 <= q < e.len() && is_call(e[q]) && !(#[trigger] kept.contains(q as usize))
}

/// Whether the selection is reported as truncated.
pub open spec fn selection_truncated(
    n: Seq<Definition>,
    e: Seq<Relation>,
    input_truncated: bool,
    limits: AnalysisLimits,
    kept: Seq<usize>,
) -> bool {
    input_truncated || n.len() > limits.max_nodes || calls_dropped(e, kept)
}

/// The assumptions every call-graph report states.
pub open spec fn graph_assumptions() -> Seq<Seq<char>> {
    seq![
        "Only selected direct calls are analyzed; selected-subgraph SCCs and fan counts do not describe the entire repository"@,
        "Resolved static calls show possible call relations, not path feasibility or execution evidence"@,
        "Source line/branch/return/await/unsafe counts retain frontend semantics; they are not compiler CFG complexity or noncomment LOC"@,
    ]
}

/// Whether a refusal names a fault that the selection has.
pub open spec fn refusal_holds(
    n: Seq<Definition>,
    e: Seq<Relation>,
    limits: AnalysisLimits,
    input_bytes: int,
    err: AnalysisError,
) -> bool {
    ||| !limits.supported() && refusal_is(err, Some(limits_message()))
    ||| limits.supported() && (n.len() > 10_000 || e.len() > 50_000 || input_bytes > 16_777_216)
        && err is BudgetExhausted
    ||| limits.supported() && !(n.len() > 10_000 || e.len() > 50_000 || input_bytes > 16_777_216)
        && exists|i: int|
        #![trigger first_node_fault(n, i)]
        first_node_fault(n, i) && refusal_is(
            err,
            Some(
                if mixes_context(n, i) {
                    mixed_message()
                } else {
                    duplicate_definition_message()
                },
            ),
        )
    ||| limits.supported() && !(n.len() > 10_000 || e.len() > 50_000 || input_bytes > 16_777_216)
        && (exists|j: int| 0 <= j < e.len() && repeats_relation(e, j)) && refusal_is(
        err,
        Some(duplicate_relation_message()),
    )
}

/// The selection, checked and turned into a graph over the retained nodes.
struct Prepared {
    sel: Vec<usize>,
    handled: Handled,
    unknown: Vec<UnknownFrontier>,
    envelope: AnalysisEnvelope,
    halted: bool,
    kept: Ghost<Seq<usize>>,
    order: Ghost<Seq<usize>>,
}

/// Whether `pr` is the faithful preparation of the selection (when nothing stopped it).
pub open spec fn prepared_exact(
    n: Seq<Definition>,
    e: Seq<Relation>,
    coverage: Coverage,
    input_truncated: bool,
    limits: AnalysisLimits,
    version: Seq<char>,
    sel: Seq<usize>,
    kept: Seq<usize>,
    order: Seq<usize>,
    targets: Seq<Seq<usize>>,
    sites: Seq<Seq<usize>>,
    leaving: Seq<u32>,
    count: int,
    unknown: Seq<UnknownFrontier>,
    env: AnalysisEnvelope,
) -> bool {
    &&& kept_nodes(n, limits.max_nodes as int, sel)
    &&& kept_calls(e, limits.max_edges as int, kept)
    &&& handling_order(e, kept, order)
    &&& targets == targets_after(n, sel, e, order)
    &&& sites == sites_after(n, sel, e, order)
    &&& forall|s: int| 0 <= s < sel.len() ==> leaving[s] == #[trigger] leaving_after(n, sel, e, order)[s]
    &&& count == count_after(n, sel, e, order)
    &&& frontier_listed(e, frontier_after(n, sel, e, order), unknown)
    &&& env.algorithm_version@ == version
    &&& texts(env.assumptions@) == graph_assumptions()
    &&& env.truncated == selection_truncated(n, e, input_truncated, limits, kept)
    &&& !env.cancelled && !env.deadline_reached
    &&& coverage_view(env.coverage) == with_gaps(
        coverage_view(coverage),
        (if selection_truncated(n, e, input_truncated, limits, kept) {
            seq![(UnknownReason::BudgetExhausted, truncation_message())]
        } else {
            Seq::empty()
        }) + configuration_gaps(n, sel) + gaps_after(n, sel, e, order),
    )
}

proof fn lemma_prefix_kept(n: Seq<Definition>, order: Seq<usize>, max: int, sel: Seq<usize>)
    requires
        nodes_ascending(n, order),
        order.len() == n.len(),
        forall|p: int| 0 <= p < order.len() ==> #[trigger] order.contains(p as usize),
        max >= 1,
        n.len() <= usize::MAX,
        sel == order.take(if order.len() < max { order.len() as int } else { max }),
    ensures
        kept_nodes(n, max, sel),
{
    assert forall|i: int| 0 <= i < n.len() implies #[trigger] sel.contains(i as usize) || (sel.len() == max && lex_lt(
        key(n[sel.last() as int].id),
        key(n[i].id),
    )) by {
        assert(order.contains(i as usize));
        let m = choose|m: int| 0 <= m < order.len() && order[m] == i as usize;
        if m < sel.len() {
            assert(sel[m] == i as usize);
        } else {
            assert(sel.len() == max);
            assert(sel.last() == order[sel.len() - 1]);
            assert(lex_lt(key(n[order[sel.len() - 1] as int].id), key(n[order[m] as int].id)));
        }
    }
}

/// Checks the selection and builds its call graph over the retained nodes, stopping early
/// when asked.
#[verifier::rlimit(60)]
#[verifier::spinoff_prover]
fn prepare(
    input: &SelectedGraph,
    limits: AnalysisLimits,
    control: &AnalysisControl,
    version: &str,
    input_bytes: usize,
) -> (r: Result<Prepared, AnalysisError>)
    ensures
        r matches Err(err) ==> refusal_holds(input.nodes@, input.edges@, limits, input_bytes as int, err),
        selection_fault(input.nodes@, input.edges@, limits, input_bytes as int) is None ==> r is Ok,
        early_refusal(input.nodes@, input.edges@, limits, input_bytes as int) ==> r is Err,
        r matches Ok(pr) ==> {
            &&& input_bytes <= 16_777_216
            &&& nodes_ascending(input.nodes@, pr.sel@)
            &&& pr.sel@.len() <= limits.max_nodes
            &&& limits.supported()
            &&& input.nodes@.len() <= 10_000
            &&& input.edges@.len() <= 50_000
            &&& handled_shape(adj_view(pr.handled.targets@), adj_view(pr.handled.sites@), pr.sel@.len() as int, input.edges@)
            &&& pr.handled.leaving@.len() == pr.sel@.len()
            &&& forall|x: int| 0 <= x < pr.sel@.len() ==> (#[trigger] pr.handled.targets@[x])@.len() <= 50_000
            &&& forall|x: int| 0 <= x < pr.sel@.len() ==> #[trigger] pr.handled.leaving@[x] <= 50_000
            &&& pr.handled.count <= 50_000
            &&& forall|m: int| 0 <= m < pr.sel@.len() ==> #[trigger] pr.sel@[m] < input.nodes@.len()
            &&& pr.envelope.algorithm_version@ == version@
            &&& texts(pr.envelope.assumptions@) == graph_assumptions()
            &&& (pr.halted ==> stopped_env(pr.envelope) && pr.envelope.truncated)
            &&& (!pr.halted ==> selection_fault(input.nodes@, input.edges@, limits, input_bytes as int) is None
                && prepared_exact(
                input.nodes@,
                input.edges@,
                *input.coverage,
                input.input_truncated,
                limits,
                version@,
                pr.sel@,
                pr.kept@,
                pr.order@,
                adj_view(pr.handled.targets@),
                adj_view(pr.handled.sites@),
                pr.handled.leaving@,
                pr.handled.count as int,
                pr.unknown@,
                pr.envelope,
            ))
        },
{
    let nodes = input.nodes;
    let edges = input.edges;
    match limits.validate() {
        Ok(()) => {},
        Err(e) => {
            return Err(e);
        },
    }
    if nodes.len() > 10_000 || edges.len() > 50_000 || input_bytes > 16 * 1024 * 1024 {
        return Err(AnalysisError::BudgetExhausted);
    }
    let mut envelope = AnalysisEnvelope::new(version, input.coverage.copy());
    let mut assumptions: Vec<String> = Vec::new();
    assumptions.push("Only selected direct calls are analyzed; selected-subgraph SCCs and fan counts do not describe the entire repository".to_string());
    assumptions.push("Resolved static calls show possible call relations, not path feasibility or execution evidence".to_string());
    assumptions.push("Source line/branch/return/await/unsafe counts retain frontend semantics; they are not compiler CFG complexity or noncomment LOC".to_string());
    envelope.assumptions = assumptions;
    proof {
        assert(texts(envelope.assumptions@) =~= graph_assumptions());
    }
    let ghost start = envelope;
    let (order, node_halt) = match scan_nodes(nodes, &mut envelope, control) {
        Ok(found) => found,
        Err(e) => {
            return Err(e);
        },
    };
    let ghost after_nodes = envelope;
    let (rels, edge_halt) = match scan_relations(edges, &mut envelope, control) {
        Ok(found) => found,
        Err(e) => {
            return Err(e);
        },
    };
    let ghost after_edges = envelope;
    let (kept, dropped) = keep_calls(edges, &rels, limits.max_edges as usize);
    let truncate = input.input_truncated || order.len() > limits.max_nodes as usize || dropped;
    let ghost trunc_gaps = if truncate {
        seq![(UnknownReason::BudgetExhausted, truncation_message())]
    } else {
        Seq::<(UnknownReason, Seq<char>)>::empty()
    };
    if truncate {
        envelope.truncated = true;
        envelope.partial(
            UnknownReason::BudgetExhausted,
            "Selected graph was truncated; omitted nodes or call sites can change reachability, SCCs and fan counts",
        );
    }
    let ghost after_trunc = envelope;
    proof {
        let none = Seq::<(UnknownReason, Seq<char>)>::empty();
        if truncate {
            lemma_with_gaps_push(coverage_view(after_edges.coverage), none, UnknownReason::BudgetExhausted, truncation_message());
            assert(none.push((UnknownReason::BudgetExhausted, truncation_message())) =~= trunc_gaps);
        }
        assert(coverage_view(after_trunc.coverage) == with_gaps(coverage_view(after_edges.coverage), trunc_gaps));
    }
    let sel = keep_nodes(&order, limits.max_nodes as usize);
    let mut c: usize = 0;
    proof {
        assert(configuration_gaps(nodes@, sel@.take(0)) =~= Seq::<(UnknownReason, Seq<char>)>::empty());
    }
    while c < sel.len()
        invariant
            c <= sel@.len(),
            nodes_ascending(nodes@, order@),
            sel@ == order@.take(sel@.len() as int),
            sel@.len() <= order@.len(),
            envelope_step(after_trunc, envelope, configuration_gaps(nodes@, sel@.take(c as int))),
            envelope.truncated == after_trunc.truncated,
            envelope.cancelled == after_trunc.cancelled,
            envelope.deadline_reached == after_trunc.deadline_reached,
        decreases sel.len() - c,
    {
        proof {
            assert(sel@.take(c + 1).drop_last() =~= sel@.take(c as int));
            assert(sel@[c as int] == order@[c as int]);
        }
        match nodes[sel[c]].cfg_status {
            CfgStatus::Active => {},
            _ => {
                envelope.partial(
                    UnknownReason::CfgUnknown,
                    "Selected graph contains inactive or unresolved configuration definitions",
                );
                proof {
                    lemma_with_gaps_push(coverage_view(after_trunc.coverage), configuration_gaps(nodes@, sel@.take(c as int)), UnknownReason::CfgUnknown, configuration_message());
                }
            },
        }
        c += 1;
    }
    proof {
        assert(sel@.take(c as int) =~= sel@);
    }
    let ghost after_cfg = envelope;
    let p = handling(edges, &kept);
    proof {
        assert forall|m: int| 0 <= m < p@.len() implies #[trigger] p@[m] < edges@.len() by {
            assert(kept@.contains(p@[m]));
        }
        assert forall|a: int, b: int| 0 <= a < b < p@.len() implies key(edges@[#[trigger] p@[a] as int].id) != key(edges@[#[trigger] p@[b] as int].id) by {
            assert(kept@.contains(p@[a]));
            assert(kept@.contains(p@[b]));
            let ka = choose|ka: int| 0 <= ka < kept@.len() && kept@[ka] == p@[a];
            let kb = choose|kb: int| 0 <= kb < kept@.len() && kept@[kb] == p@[b];
            lemma_lex_irreflexive(target_key(edges@[p@[a] as int]));
            lemma_lex_irreflexive(key(edges@[p@[a] as int].id));
            if ka < kb {
            } else if kb < ka {
            }
        }
    }
    let (handled, stop) = handle_sites(nodes, edges, &sel, &p, &mut envelope, control);
    let unknown = list_frontier(edges, &handled.frontier);
    proof {
        assert(p@.len() <= 50_000);
        assert forall|m: int| 0 <= m < sel@.len() implies #[trigger] sel@[m] < nodes@.len() by {
            assert(sel@[m] == order@[m]);
        }
    }
    let halted = node_halt || edge_halt || stop;
    proof {
        if !halted {
            lemma_prefix_kept(nodes@, order@, limits.max_nodes as int, sel@);
            assert(kept_calls(edges@, limits.max_edges as int, kept@)) by {
                assert forall|q: int| 0 <= q < edges@.len() && is_call(edges@[q]) implies #[trigger] kept@.contains(q as usize) || (kept@.len()
                    == limits.max_edges && lex_lt(key(edges@[kept@.last() as int].id), key(edges@[q].id))) by {
                    assert(rels@.contains(q as usize));
                    let a = choose|a: int| 0 <= a < rels@.len() && rels@[a] == q as usize;
                    assert(is_call(edges@[rels@[a] as int]));
                }
            }
            assert(dropped == calls_dropped(edges@, kept@)) by {
                if dropped {
                    let a = choose|a: int| 0 <= a < rels@.len() && is_call(edges@[rels@[a] as int]) && !(#[trigger] kept@.contains(rels@[a]));
                    let q = rels@[a] as int;
                    assert(q < edges@.len());
                    assert(!kept@.contains(q as usize));
                }
                if calls_dropped(edges@, kept@) {
                    let q = choose|q: int| 0 <= q < edges@.len() && is_call(edges@[q]) && !(#[trigger] kept@.contains(q as usize));
                    assert(rels@.contains(q as usize));
                    let a = choose|a: int| 0 <= a < rels@.len() && rels@[a] == q as usize;
                    assert(!kept@.contains(rels@[a]));
                }
            }
            crate::model::lemma_with_gaps_concat(coverage_view(start.coverage), trunc_gaps, configuration_gaps(nodes@, sel@));
            crate::model::lemma_with_gaps_concat(coverage_view(start.coverage), trunc_gaps + configuration_gaps(nodes@, sel@), gaps_after(nodes@, sel@, edges@, p@));
            assert(forall|i: int| 0 <= i < nodes@.len() ==> !first_node_fault(nodes@, i));
            assert(!(exists|i: int| first_node_fault(nodes@, i)));
        } else {
            if !stop {
                let g = trunc_gaps + configuration_gaps(nodes@, sel@);
                crate::model::lemma_with_gaps_concat(coverage_view(after_edges.coverage), trunc_gaps, configuration_gaps(nodes@, sel@));
                if node_halt {
                    lemma_stop_recorded(coverage_view(start.coverage));
                    if edge_halt {
                        assert(stopped_env(after_nodes));
                        lemma_gaps_keep(coverage_view(after_nodes.coverage), seq![stop_gap()], stopped_message());
                    }
                    assert(stopped_env(after_edges));
                } else {
                    lemma_stop_recorded(coverage_view(after_nodes.coverage));
                    assert(stopped_env(after_edges));
                }
                lemma_gaps_keep(coverage_view(after_edges.coverage), g, stopped_message());
                assert(stopped_env(after_cfg));
                lemma_gaps_keep(coverage_view(after_cfg.coverage), gaps_after(nodes@, sel@, edges@, p@), stopped_message());
            }
        }
    }
    Ok(Prepared {
        sel,
        handled,
        unknown,
        envelope,
        halted,
        kept: Ghost(kept@),
        order: Ghost(p@),
    })
}

/// Whether each of `a`, `b` reaches the other.
pub open spec fn mutual(adj: Seq<Seq<usize>>, a: int, b: int) -> bool {
    reachable(adj, a, b) && reachable(adj, b, a)
}

/// Whether a graph is small enough for a `petgraph::Graph` with 32-bit indices.
pub open spec fn fits_petgraph(adj: Seq<Seq<usize>>) -> bool {
    &&& adj.len() <= 10_000
    &&& forall|a: int| 0 <= a < adj.len() ==> (#[trigger] adj[a]).len() <= 50_000
}

/// Whether node `x` occurs in one of the components `comps`.
pub open spec fn placed(comps: Seq<Seq<usize>>, x: int) -> bool {
    exists|c: int, k: int| 0 <= c < comps.len() && 0 <= k < comps[c].len() && #[trigger] comps[c][k] == x
}

/// Whether `comps` are the strongly connected components of `adj`: nonempty lists of its
/// nodes, each node occurring exactly once, two nodes sharing a list exactly when each
/// reaches the other.
pub open spec fn partitions(adj: Seq<Seq<usize>>, comps: Seq<Seq<usize>>) -> bool {
    &&& forall|c: int| 0 <= c < comps.len() ==> (#[trigger] comps[c]).len() > 0
    &&& forall|c: int, k: int| 0 <= c < comps.len() && 0 <= k < comps[c].len() ==> #[trigger] comps[c][k] < adj.len()
    &&& forall|x: int| 0 <= x < adj.len() ==> #[trigger] placed(comps, x)
    &&& forall|c1: int, k1: int, c2: int, k2: int|
        0 <= c1 < comps.len() && 0 <= k1 < comps[c1].len() && 0 <= c2 < comps.len() && 0 <= k2 < comps[c2].len()
            && #[trigger] comps[c1][k1] == #[trigger] comps[c2][k2] ==> c1 == c2 && k1 == k2
    &&& forall|c1: int, k1: int, c2: int, k2: int|
        0 <= c1 < comps.len() && 0 <= k1 < comps[c1].len() && 0 <= c2 < comps.len() && 0 <= k2 < comps[c2].len()
            ==> (c1 == c2 <==> mutual(adj, #[trigger] comps[c1][k1] as int, #[trigger] comps[c2][k2] as int))
}

/// `petgraph::algo::kosaraju_scc` on the `petgraph::Graph` whose node `a` has edges to the
/// nodes of `adj[a]`, with each component mapped back to node positions. Claimed, as the
/// function's documentation says: the components partition the nodes (each node occurs in
/// exactly one component, once) and two nodes share a component exactly when each reaches
/// the other. The order of the components and of their members is left unsaid.
#[verifier::external_body]
fn strong_components(adj: &Vec<Vec<usize>>) -> (r: Vec<Vec<usize>>)
    requires
        closed_graph(adj_view(adj@)),
        fits_petgraph(adj_view(adj@)),
    ensures
        partitions(adj_view(adj@), adj_view(r@)),
{
    let mut graph = Graph::<(), ()>::new();
    let nodes: Vec<NodeIndex> = adj.iter().map(|_| graph.add_node(())).collect();
    for (a, targets) in adj.iter().enumerate() {
        for &b in targets {
            graph.add_edge(nodes[a], nodes[b], ());
        }
    }
    kosaraju_scc(&graph).into_iter().map(|c| c.into_iter().map(|x| x.index()).collect()).collect()
}

/// The least number of steps from `root` to `x` (when `x` is reachable).
#[verifier::opaque]
pub open spec fn distance(adj: Seq<Seq<usize>>, root: int, x: int) -> nat {
    choose|k: nat| within(adj, root, k).contains(x) && forall|j: nat| j < k ==> !#[trigger] within(adj, root, j).contains(x)
}

/// The order in which `petgraph::visit::Bfs` visits the nodes from `root`, on the
/// `petgraph::Graph` whose edges from node `a` are added in the order of `adj[a]`.
pub uninterp spec fn breadth_first_order(adj: Seq<Seq<usize>>, root: usize) -> Seq<usize>;

/// `petgraph::visit::Bfs` from `root`, run until it yields no more nodes, on the
/// `petgraph::Graph` whose edges from node `a` are added in the order of `adj[a]`; the
/// visited nodes as positions. Besides naming the order, claimed as the traversal's
/// documentation and source show: it starts at `root`, visits each node reachable from
/// `root` exactly once and no other, breadth first (a node is never visited before one that
/// is fewer steps from `root`).
#[verifier::external_body]
fn breadth_first(adj: &Vec<Vec<usize>>, root: usize) -> (r: Vec<usize>)
    requires
        closed_graph(adj_view(adj@)),
        fits_petgraph(adj_view(adj@)),
        root < adj@.len(),
    ensures
        r@ == breadth_first_order(adj_view(adj@), root),
        r@.len() > 0,
        r@[0] == root,
        forall|a: int, b: int| 0 <= a < b < r@.len() ==> #[trigger] r@[a] != #[trigger] r@[b],
        forall|m: int| 0 <= m < r@.len() ==> #[trigger] r@[m] < adj@.len(),
        forall|x: usize| (x as int) < adj@.len() ==> (#[trigger] r@.contains(x) <==> reachable(adj_view(adj@), root as int, x as int)),
        forall|a: int, b: int|
            0 <= a <= b < r@.len() ==> distance(adj_view(adj@), root as int, #[trigger] r@[a] as int) <= distance(
                adj_view(adj@),
                root as int,
                #[trigger] r@[b] as int,
            ),
{
    let mut graph = Graph::<(), ()>::new();
    let nodes: Vec<NodeIndex> = adj.iter().map(|_| graph.add_node(())).collect();
    for (a, targets) in adj.iter().enumerate() {
        for &b in targets {
            graph.add_edge(nodes[a], nodes[b], ());
        }
    }
    let mut bfs = Bfs::new(&graph, nodes[root]);
    let mut order = Vec::new();
    while let Some(x) = bfs.next(&graph) {
        order.push(x.index());
    }
    order
}

/// What `serde_json::to_vec` gives for a list of strings (a JSON array of JSON strings).
pub uninterp spec fn json_of_texts(texts: Seq<Seq<char>>) -> Seq<u8>;

/// `serde_json::to_vec` on a list of strings; such a list always serializes, and the
/// bytes are named, not stated.
#[verifier::external_body]
pub(crate) fn json_bytes(items: &Vec<String>) -> (r: Vec<u8>)
    ensures
        r@ == json_of_texts(texts(items@)),
{
    match serde_json::to_vec(items) {
        Ok(bytes) => bytes,
        Err(_) => Vec::new(),
    }
}

/// The lowercase hexadecimal SHA-256 digest of some bytes.
pub uninterp spec fn sha256_hex(bytes: Seq<u8>) -> Seq<char>;

/// `sha2::Sha256::digest`, formatted as lowercase hexadecimal; the digest is named, not
/// stated.
#[verifier::external_body]
pub(crate) fn sha256_text(bytes: &[u8]) -> (r: String)
    ensures
        r@ == sha256_hex(bytes@),
{
    format!("{:x}", Sha256::digest(bytes))
}

/// Whether no node before `s` shares its strongly connected component.
pub open spec fn leads_component(adj: Seq<Seq<usize>>, s: int) -> bool {
    forall|t: int| 0 <= t < s ==> !#[trigger] mutual(adj, s, t)
}

/// Whether `comps` lists the strongly connected components of `adj`, each as its nodes in
/// ascending order, the components in ascending order of their least node.
pub open spec fn components_listed(adj: Seq<Seq<usize>>, comps: Seq<Seq<usize>>) -> bool {
    &&& forall|c: int| 0 <= c < comps.len() ==> (#[trigger] comps[c]).len() > 0
    &&& forall|c: int, k: int| 0 <= c < comps.len() && 0 <= k < comps[c].len() ==> #[trigger] comps[c][k] < adj.len()
    &&& forall|c: int, k1: int, k2: int|
        0 <= c < comps.len() && 0 <= k1 < k2 < comps[c].len() ==> #[trigger] comps[c][k1] < #[trigger] comps[c][k2]
    &&& forall|c: int| 0 <= c < comps.len() ==> leads_component(adj, (#[trigger] comps[c])[0] as int)
    &&& forall|c: int, t: int|
        0 <= c < comps.len() && 0 <= t < adj.len() ==> (#[trigger] comps[c].contains(t as usize) <==> mutual(
            adj,
            comps[c][0] as int,
            t,
        ))
    &&& forall|c1: int, c2: int| 0 <= c1 < c2 < comps.len() ==> (#[trigger] comps[c1])[0] < (#[trigger] comps[c2])[0]
    &&& forall|s: int| 0 <= s < adj.len() && #[trigger] leads_component(adj, s) ==> exists|c: int|
        0 <= c < comps.len() && #[trigger] comps[c][0] == s
    &&& forall|c1: int, c2: int, x: usize|
        0 <= c1 < comps.len() && 0 <= c2 < comps.len() && #[trigger] comps[c1].contains(x) && #[trigger] comps[c2].contains(x) ==> c1 == c2
}

/// The component index of every node, from a partition into components.
fn label_components(comps: &Vec<Vec<usize>>, width: usize) -> (label: Vec<usize>)
    requires
        forall|c: int, k: int| 0 <= c < comps@.len() && 0 <= k < comps@[c]@.len() ==> #[trigger] comps@[c]@[k] < width,
        forall|x: int| 0 <= x < width ==> #[trigger] placed(adj_view(comps@), x),
    ensures
        label@.len() == width,
        forall|x: int| 0 <= x < width ==> #[trigger] label@[x] < comps@.len() && comps@[label@[x] as int]@.contains(x as usize),
{
    let mut label: Vec<usize> = Vec::new();
    let mut assigned: Vec<bool> = Vec::new();
    let mut w: usize = 0;
    while w < width
        invariant
            w <= width,
            label@.len() == w,
            assigned@.len() == w,
            forall|x: int| 0 <= x < w ==> !#[trigger] assigned@[x],
        decreases width - w,
    {
        label.push(0);
        assigned.push(false);
        w += 1;
    }
    let mut c: usize = 0;
    while c < comps.len()
        invariant
            c <= comps@.len(),
            label@.len() == width,
            assigned@.len() == width,
            forall|c2: int, k: int| 0 <= c2 < comps@.len() && 0 <= k < comps@[c2]@.len() ==> #[trigger] comps@[c2]@[k] < width,
            forall|x: int| 0 <= x < width && #[trigger] assigned@[x] ==> label@[x] < comps@.len() && comps@[label@[x] as int]@.contains(x as usize),
            forall|c2: int, k: int| 0 <= c2 < c && 0 <= k < comps@[c2]@.len() ==> #[trigger] assigned@[comps@[c2]@[k] as int],
        decreases comps.len() - c,
    {
        let members = &comps[c];
        let mut k: usize = 0;
        while k < members.len()
            invariant
                c < comps@.len(),
                members@ == comps@[c as int]@,
                k <= members@.len(),
                label@.len() == width,
                assigned@.len() == width,
                forall|c2: int, k2: int| 0 <= c2 < comps@.len() && 0 <= k2 < comps@[c2]@.len() ==> #[trigger] comps@[c2]@[k2] < width,
                forall|x: int| 0 <= x < width && #[trigger] assigned@[x] ==> label@[x] < comps@.len() && comps@[label@[x] as int]@.contains(x as usize),
                forall|c2: int, k2: int| 0 <= c2 < c && 0 <= k2 < comps@[c2]@.len() ==> #[trigger] assigned@[comps@[c2]@[k2] as int],
                forall|k2: int| 0 <= k2 < k ==> #[trigger] assigned@[members@[k2] as int],
            decreases members.len() - k,
        {
            let x = members[k];
            proof {
                assert(comps@[c as int]@[k as int] == x);
                assert(x < width);
            }
            label.set(x, c);
            assigned.set(x, true);
            proof {
                assert(comps@[c as int]@.contains(x));
            }
            k += 1;
        }
        c += 1;
    }
    proof {
        assert forall|x: int| 0 <= x < width implies #[trigger] label@[x] < comps@.len() && comps@[label@[x] as int]@.contains(x as usize) by {
            assert(placed(adj_view(comps@), x));
            let (c2, k2) = choose|c2: int, k2: int| 0 <= c2 < adj_view(comps@).len() && 0 <= k2 < adj_view(comps@)[c2].len() && #[trigger] adj_view(comps@)[c2][k2] == x;
            assert(comps@[c2]@[k2] == x);
            assert(assigned@[comps@[c2]@[k2] as int]);
        }
    }
    label
}

/// Whether a node before `s` has the same label as `x`.
pub open spec fn shares_label(label: Seq<usize>, s: int, x: int) -> bool {
    exists|y: int| 0 <= y < s && #[trigger] label[y] == label[x]
}

proof fn lemma_shares(label: Seq<usize>, s: int, x: int, y: int)
    requires
        0 <= y < s,
        label[y] == label[x],
    ensures
        shares_label(label, s, x),
{
}

/// The strongly connected components of the graph `targets`, each as its nodes in
/// ascending order, in ascending order of their least node; and the component of each node.
fn canonical_components(targets: &Vec<Vec<usize>>) -> (r: (Vec<Vec<usize>>, Vec<usize>))
    requires
        closed_graph(adj_view(targets@)),
        fits_petgraph(adj_view(targets@)),
    ensures
        components_listed(adj_view(targets@), adj_view(r.0@)),
        r.1@.len() == targets@.len(),
        forall|x: int| 0 <= x < targets@.len() ==> #[trigger] r.1@[x] < r.0@.len() && r.0@[r.1@[x] as int]@.contains(x as usize),
{
    let width = targets.len();
    let ghost g = adj_view(targets@);
    let r = strong_components(targets);
    let ghost parts = adj_view(r@);
    proof {
        assert forall|c: int, k: int| 0 <= c < r@.len() && 0 <= k < r@[c]@.len() implies #[trigger] r@[c]@[k] < width by {
            assert(parts[c][k] == r@[c]@[k]);
        }
    }
    let label = label_components(&r, width);
    proof {
        // Equal labels exactly when mutually reachable.
        assert forall|x: int, y: int| 0 <= x < width && 0 <= y < width implies (#[trigger] label@[x] == #[trigger] label@[y] <==> mutual(g, x, y)) by {
            let kx = choose|kx: int| 0 <= kx < r@[label@[x] as int]@.len() && r@[label@[x] as int]@[kx] == x as usize;
            let ky = choose|ky: int| 0 <= ky < r@[label@[y] as int]@.len() && r@[label@[y] as int]@[ky] == y as usize;
            assert(parts[label@[x] as int][kx] == x as usize);
            assert(parts[label@[y] as int][ky] == y as usize);
        }
    }
    let mut done: Vec<bool> = Vec::new();
    let mut w: usize = 0;
    while w < width
        invariant
            w <= width,
            done@.len() == w,
            forall|x: int| 0 <= x < w ==> !#[trigger] done@[x],
        decreases width - w,
    {
        done.push(false);
        w += 1;
    }
    let mut out: Vec<Vec<usize>> = Vec::new();
    let mut own: Vec<usize> = Vec::new();
    let mut w2: usize = 0;
    while w2 < width
        invariant
            w2 <= width,
            own@.len() == w2,
        decreases width - w2,
    {
        own.push(0);
        w2 += 1;
    }
    let mut s: usize = 0;
    while s < width
        invariant
            s <= width,
            width == targets@.len(),
            g == adj_view(targets@),
            label@.len() == width,
            done@.len() == width,
            own@.len() == width,
            forall|x: int, y: int| 0 <= x < width && 0 <= y < width ==> (#[trigger] label@[x] == #[trigger] label@[y] <==> mutual(g, x, y)),
            // a node is done exactly when its component has a node before `s`
            forall|x: int| 0 <= x < width ==> (#[trigger] done@[x] <==> shares_label(label@, s as int, x)),
            forall|x: int| 0 <= x < width && #[trigger] done@[x] ==> own@[x] < out@.len() && out@[own@[x] as int]@.contains(x as usize),
            forall|c: int| 0 <= c < out@.len() ==> (#[trigger] out@[c])@.len() > 0 && out@[c]@[0] < s,
            forall|c: int, k: int| 0 <= c < out@.len() && 0 <= k < out@[c]@.len() ==> #[trigger] out@[c]@[k] < width,
            forall|c: int, k1: int, k2: int|
                0 <= c < out@.len() && 0 <= k1 < k2 < out@[c]@.len() ==> #[trigger] out@[c]@[k1] < #[trigger] out@[c]@[k2],
            forall|c: int| 0 <= c < out@.len() ==> leads_component(g, (#[trigger] out@[c])@[0] as int),
            forall|c: int, t: int|
                0 <= c < out@.len() && 0 <= t < width ==> (#[trigger] out@[c]@.contains(t as usize) <==> mutual(g, out@[c]@[0] as int, t)),
            forall|c1: int, c2: int| 0 <= c1 < c2 < out@.len() ==> (#[trigger] out@[c1])@[0] < (#[trigger] out@[c2])@[0],
            forall|x: int| 0 <= x < s && #[trigger] leads_component(g, x) ==> exists|c: int| 0 <= c < out@.len() && #[trigger] out@[c]@[0] == x,
            forall|c: int, k: int| 0 <= c < out@.len() && 0 <= k < out@[c]@.len() ==> label@[#[trigger] out@[c]@[k] as int] == label@[out@[c]@[0] as int],
            forall|c1: int, c2: int| 0 <= c1 < out@.len() && 0 <= c2 < out@.len() && c1 != c2 ==> label@[(#[trigger] out@[c1])@[0] as int] != label@[(#[trigger] out@[c2])@[0] as int],
        decreases width - s,
    {
        if !done[s] {
            proof {
                assert forall|t: int| 0 <= t < s implies !#[trigger] mutual(g, s as int, t) by {
                    if mutual(g, s as int, t) {
                        assert(label@[s as int] == label@[t]);
                        assert(shares_label(label@, s as int, s as int));
                    }
                }
            }
            let mut members: Vec<usize> = Vec::new();
            let c = out.len();
            let mut t: usize = s;
            while t < width
                invariant
                    s <= t <= width,
                    s < width,
                    width == targets@.len(),
                    label@.len() == width,
                    done@.len() == width,
                    own@.len() == width,
                    c == out@.len(),
                    !done@[s as int] || t > s,
                    forall|x: int, y: int| 0 <= x < width && 0 <= y < width ==> (#[trigger] label@[x] == #[trigger] label@[y] <==> mutual(g, x, y)),
                    forall|k: int| 0 <= k < members@.len() ==> s <= #[trigger] members@[k] < t && label@[members@[k] as int] == label@[s as int],
                    forall|k1: int, k2: int| 0 <= k1 < k2 < members@.len() ==> #[trigger] members@[k1] < #[trigger] members@[k2],
                    forall|x: int| s <= x < t && label@[x] == label@[s as int] ==> #[trigger] members@.contains(x as usize),
                    members@.len() > 0 ==> members@[0] == s,
                    t > s ==> members@.len() > 0,
                decreases width - t,
            {
                if label[t] == label[s] {
                    let ghost before = members@;
                    members.push(t);
                    proof {
                        assert(members@[members@.len() - 1] == t);
                        assert forall|x: int| s <= x < t + 1 && label@[x] == label@[s as int] implies #[trigger] members@.contains(x as usize) by {
                            if x < t {
                                assert(before.contains(x as usize));
                                let k = choose|k: int| 0 <= k < before.len() && before[k] == x as usize;
                                assert(members@[k] == x as usize);
                            }
                        }
                    }
                }
                t += 1;
            }
            proof {
                assert(members@.len() > 0);
                assert forall|t2: int| 0 <= t2 < width implies (#[trigger] members@.contains(t2 as usize) <==> mutual(g, s as int, t2)) by {
                    if members@.contains(t2 as usize) {
                        let k = choose|k: int| 0 <= k < members@.len() && members@[k] == t2 as usize;
                        assert(label@[members@[k] as int] == label@[s as int]);
                    }
                    if mutual(g, s as int, t2) {
                        assert(label@[s as int] == label@[t2]);
                        if t2 < s {
                            assert(!mutual(g, s as int, t2));
                        }
                    }
                }
            }
            let mut k: usize = 0;
            let ghost done_before = done@;
            let ghost own_before = own@;
            while k < members.len()
                invariant
                    k <= members@.len(),
                    done@.len() == width,
                    own@.len() == width,
                    forall|k2: int| 0 <= k2 < members@.len() ==> #[trigger] members@[k2] < width,
                    forall|k1: int, k2: int| 0 <= k1 < k2 < members@.len() ==> #[trigger] members@[k1] < #[trigger] members@[k2],
                    forall|k2: int| 0 <= k2 < k ==> #[trigger] done@[members@[k2] as int] && own@[members@[k2] as int] == c,
                    forall|x: int| 0 <= x < width && !(exists|k2: int| 0 <= k2 < k && #[trigger] members@[k2] == x as usize) ==> done@[x] == done_before[x] && own@[x] == own_before[x],
                decreases members.len() - k,
            {
                let x = members[k];
                done.set(x, true);
                own.set(x, c);
                proof {
                    assert forall|k2: int| 0 <= k2 < k + 1 implies #[trigger] done@[members@[k2] as int] && own@[members@[k2] as int] == c by {
                        if k2 < k {
                            assert(members@[k2] < members@[k as int]);
                        }
                    }
                    assert forall|y: int| 0 <= y < width && !(exists|k2: int| 0 <= k2 < k + 1 && #[trigger] members@[k2] == y as usize) implies done@[y] == done_before[y] && own@[y] == own_before[y] by {
                        assert(members@[k as int] != y as usize);
                        assert(!(exists|k2: int| 0 <= k2 < k && #[trigger] members@[k2] == y as usize));
                    }
                }
                k += 1;
            }
            let ghost out_before = out@;
            out.push(members);
            proof {
                assert(out@[c as int] == members);
                assert forall|x: int| 0 <= x < width implies (#[trigger] done@[x] <==> shares_label(label@, s + 1, x)) by {
                    if members@.contains(x as usize) {
                        let k2 = choose|k2: int| 0 <= k2 < members@.len() && members@[k2] == x as usize;
                        assert(done@[members@[k2] as int]);
                        assert(label@[x] == label@[s as int]);
                        assert(shares_label(label@, s + 1, x));
                    } else {
                        assert(!(exists|k2: int| 0 <= k2 < members@.len() && #[trigger] members@[k2] == x as usize));
                        assert(label@[x] != label@[s as int]) by {
                            if label@[x] == label@[s as int] {
                                assert(mutual(g, s as int, x));
                            }
                        }
                        assert(done@[x] == done_before[x]);
                        if shares_label(label@, s + 1, x) {
                            let y = choose|y: int| 0 <= y < s + 1 && #[trigger] label@[y] == label@[x];
                            assert(y != s);
                            assert(shares_label(label@, s as int, x));
                        }
                        if shares_label(label@, s as int, x) {
                            let y = choose|y: int| 0 <= y < s && #[trigger] label@[y] == label@[x];
                            assert(shares_label(label@, s + 1, x));
                        }
                    }
                }
                assert forall|x: int| 0 <= x < width && #[trigger] done@[x] implies own@[x] < out@.len() && out@[own@[x] as int]@.contains(x as usize) by {
                    if members@.contains(x as usize) {
                        let k2 = choose|k2: int| 0 <= k2 < members@.len() && members@[k2] == x as usize;
                        assert(own@[members@[k2] as int] == c);
                    } else {
                        assert(!(exists|k2: int| 0 <= k2 < members@.len() && #[trigger] members@[k2] == x as usize));
                        assert(done_before[x]);
                        assert(own@[x] == own_before[x]);
                        assert(own_before[x] < out_before.len());
                        assert(out@[own@[x] as int] == out_before[own@[x] as int]);
                    }
                }
                assert forall|c1: int, c2: int| 0 <= c1 < out@.len() && 0 <= c2 < out@.len() && c1 != c2 implies label@[(#[trigger] out@[c1])@[0] as int] != label@[(#[trigger] out@[c2])@[0] as int] by {
                    if c1 == c as int {
                        assert(out@[c2] == out_before[c2]);
                        assert(out_before[c2]@[0] < s);
                        assert(!shares_label(label@, s as int, s as int));
                        if label@[out_before[c2]@[0] as int] == label@[s as int] {
                            lemma_shares(label@, s as int, s as int, out_before[c2]@[0] as int);
                        }
                    } else if c2 == c as int {
                        assert(out@[c1] == out_before[c1]);
                        assert(out_before[c1]@[0] < s);
                        if label@[out_before[c1]@[0] as int] == label@[s as int] {
                            lemma_shares(label@, s as int, s as int, out_before[c1]@[0] as int);
                        }
                    } else {
                        assert(out@[c1] == out_before[c1]);
                        assert(out@[c2] == out_before[c2]);
                    }
                }
                assert forall|c1: int, k: int| 0 <= c1 < out@.len() && 0 <= k < out@[c1]@.len() implies label@[#[trigger] out@[c1]@[k] as int] == label@[out@[c1]@[0] as int] by {
                    if c1 < c as int {
                        assert(out@[c1] == out_before[c1]);
                    }
                }
                assert forall|x: int| 0 <= x < s + 1 && #[trigger] leads_component(g, x) implies exists|c2: int| 0 <= c2 < out@.len() && #[trigger] out@[c2]@[0] == x by {
                    if x == s {
                        assert(out@[c as int]@[0] == x);
                    } else {
                        let c2 = choose|c2: int| 0 <= c2 < out_before.len() && #[trigger] out_before[c2]@[0] == x;
                        assert(out@[c2] == out_before[c2]);
                    }
                }
            }
        } else {
            proof {
                assert(!leads_component(g, s as int)) by {
                    assert(shares_label(label@, s as int, s as int));
                    let y = choose|y: int| 0 <= y < s && #[trigger] label@[y] == label@[s as int];
                    assert(mutual(g, s as int, y));
                }
                assert forall|x: int| 0 <= x < width implies (#[trigger] done@[x] <==> shares_label(label@, s + 1, x)) by {
                    if shares_label(label@, s + 1, x) {
                        let y = choose|y: int| 0 <= y < s + 1 && #[trigger] label@[y] == label@[x];
                        if y == s {
                            let y2 = choose|y2: int| 0 <= y2 < s && #[trigger] label@[y2] == label@[s as int];
                            assert(label@[y2] == label@[x]);
                        }
                        assert(shares_label(label@, s as int, x));
                    }
                    if shares_label(label@, s as int, x) {
                        let y = choose|y: int| 0 <= y < s && #[trigger] label@[y] == label@[x];
                        assert(shares_label(label@, s + 1, x));
                    }
                }
            }
        }
        s += 1;
    }
    proof {
        assert forall|x: int| 0 <= x < width implies #[trigger] own@[x] < out@.len() && out@[own@[x] as int]@.contains(x as usize) by {
            lemma_shares(label@, s as int, x, x);
            assert(done@[x]);
        }
        let v = adj_view(out@);
        assert forall|c: int| 0 <= c < v.len() implies #[trigger] v[c] == out@[c]@ by {}
        assert forall|x: int| 0 <= x < width && #[trigger] leads_component(g, x) implies exists|c: int|
            0 <= c < v.len() && #[trigger] v[c][0] == x by {
            let c = choose|c: int| 0 <= c < out@.len() && #[trigger] out@[c]@[0] == x;
            assert(v[c] == out@[c]@);
        }
        assert forall|c: int, t: int| 0 <= c < v.len() && 0 <= t < width implies (#[trigger] v[c].contains(t as usize) <==> mutual(g, v[c][0] as int, t)) by {
            assert(v[c] == out@[c]@);
        }
        assert forall|c1: int, c2: int| 0 <= c1 < c2 < v.len() implies (#[trigger] v[c1])[0] < (#[trigger] v[c2])[0] by {
            assert(v[c1] == out@[c1]@);
            assert(v[c2] == out@[c2]@);
        }
        assert forall|c: int, k1: int, k2: int| 0 <= c < v.len() && 0 <= k1 < k2 < v[c].len() implies #[trigger] v[c][k1] < #[trigger] v[c][k2] by {
            assert(v[c] == out@[c]@);
        }
        assert forall|c: int, k: int| 0 <= c < v.len() && 0 <= k < v[c].len() implies #[trigger] v[c][k] < width by {
            assert(v[c] == out@[c]@);
        }
        assert forall|c1: int, c2: int, x: usize|
            0 <= c1 < v.len() && 0 <= c2 < v.len() && #[trigger] v[c1].contains(x) && #[trigger] v[c2].contains(x) implies c1 == c2 by {
            assert(v[c1] == out@[c1]@);
            assert(v[c2] == out@[c2]@);
            let k1 = choose|k1: int| 0 <= k1 < v[c1].len() && v[c1][k1] == x;
            let k2 = choose|k2: int| 0 <= k2 < v[c2].len() && v[c2][k2] == x;
            assert(label@[out@[c1]@[k1] as int] == label@[out@[c1]@[0] as int]);
            assert(label@[out@[c2]@[k2] as int] == label@[out@[c2]@[0] as int]);
        }
    }
    (out, own)
}

/// How many times `t` occurs in `row`.
pub open spec fn occurrences(row: Seq<usize>, t: usize) -> nat
    decreases row.len(),
{
    if row.len() == 0 {
        0
    } else {
        occurrences(row.drop_last(), t) + if row.last() == t {
            1nat
        } else {
            0nat
        }
    }
}

/// How many edges of the first `upto` nodes of `g` end at `t`.
pub open spec fn in_degree(g: Seq<Seq<usize>>, upto: int, t: usize) -> nat
    decreases upto,
{
    if upto <= 0 {
        0
    } else {
        in_degree(g, upto - 1, t) + occurrences(g[upto - 1], t)
    }
}

/// The nodes with an edge to `t`.
pub open spec fn callers_of(g: Seq<Seq<usize>>, t: usize) -> Set<usize> {
    Set::new(|s: usize| (s as int) < g.len() && g[s as int].contains(t))
}

proof fn lemma_occurrences_bound(row: Seq<usize>, t: usize)
    ensures
        occurrences(row, t) <= row.len(),
    decreases row.len(),
{
    if row.len() > 0 {
        lemma_occurrences_bound(row.drop_last(), t);
    }
}

proof fn lemma_in_degree_bound(g: Seq<Seq<usize>>, upto: int, t: usize)
    requires
        0 <= upto <= g.len(),
        forall|a: int| 0 <= a < g.len() ==> (#[trigger] g[a]).len() <= 50_000,
    ensures
        in_degree(g, upto, t) <= upto * 50_000,
    decreases upto,
{
    if upto > 0 {
        lemma_in_degree_bound(g, upto - 1, t);
        lemma_occurrences_bound(g[upto - 1], t);
    }
}

/// The number of distinct values in `row`.
fn distinct_count(row: &Vec<usize>) -> (r: usize)
    ensures
        r == row@.to_set().len(),
        r <= row@.len(),
{
    let mut seen: Vec<usize> = Vec::new();
    let mut k: usize = 0;
    while k < row.len()
        invariant
            k <= row@.len(),
            seen@.no_duplicates(),
            seen@.to_set() == row@.take(k as int).to_set(),
            seen@.len() <= k,
        decreases row.len() - k,
    {
        let x = row[k];
        let mut m: usize = 0;
        let mut found = false;
        while m < seen.len()
            invariant
                m <= seen@.len(),
                found <==> exists|a: int| 0 <= a < m && seen@[a] == x,
            decreases seen.len() - m,
        {
            if seen[m] == x {
                found = true;
            }
            m += 1;
        }
        let ghost before = seen@;
        proof {
            assert(row@.take(k + 1) =~= row@.take(k as int).push(x));
        }
        proof {
            row@.take(k as int).lemma_push_to_set_commute(x);
            before.lemma_push_to_set_commute(x);
        }
        if !found {
            seen.push(x);
            proof {
                assert(!before.contains(x)) by {
                    if before.contains(x) {
                        let a = choose|a: int| 0 <= a < before.len() && before[a] == x;
                        assert(found);
                    }
                }
                assert(seen@.no_duplicates()) by {
                    assert forall|i: int, j: int| 0 <= i < seen@.len() && 0 <= j < seen@.len() && i != j implies seen@[i] != seen@[j] by {
                        if i < before.len() && j < before.len() {
                            assert(seen@[i] == before[i] && seen@[j] == before[j]);
                        } else if i < before.len() {
                            assert(seen@[i] == before[i]);
                            assert(before.contains(before[i]));
                        } else {
                            assert(seen@[j] == before[j]);
                            assert(before.contains(before[j]));
                        }
                    }
                }
            }
        } else {
            proof {
                let a = choose|a: int| 0 <= a < m && before[a] == x;
                assert(before.contains(x));
                assert(before.to_set().contains(x));
                assert(row@.take(k as int).to_set().insert(x) =~= row@.take(k as int).to_set());
            }
        }
        k += 1;
    }
    proof {
        assert(row@.take(k as int) =~= row@);
        seen@.unique_seq_to_set();
    }
    seen.len()
}

/// For every node of the graph `g`: the nodes with an edge to it, ascending, and how many
/// edges end at it.
fn callers_and_counts(g: &Vec<Vec<usize>>) -> (r: (Vec<Vec<usize>>, Vec<u32>))
    requires
        closed_graph(adj_view(g@)),
        fits_petgraph(adj_view(g@)),
    ensures
        r.0@.len() == g@.len(),
        r.1@.len() == g@.len(),
        forall|t: int| 0 <= t < g@.len() ==> (#[trigger] r.0@[t])@.no_duplicates() && r.0@[t]@.to_set() == callers_of(adj_view(g@), t as usize),
        forall|t: int| 0 <= t < g@.len() ==> #[trigger] r.1@[t] == in_degree(adj_view(g@), g@.len() as int, t as usize),
        forall|t: int| 0 <= t < g@.len() ==> (#[trigger] r.0@[t])@.len() <= g@.len(),
{
    let width = g.len();
    let ghost v = adj_view(g@);
    let mut callers: Vec<Vec<usize>> = Vec::new();
    let mut counts: Vec<u32> = Vec::new();
    let mut w: usize = 0;
    while w < width
        invariant
            w <= width,
            callers@.len() == w,
            counts@.len() == w,
            forall|x: int| 0 <= x < w ==> (#[trigger] callers@[x])@.len() == 0,
            forall|x: int| 0 <= x < w ==> #[trigger] counts@[x] == 0,
        decreases width - w,
    {
        callers.push(Vec::new());
        counts.push(0);
        w += 1;
    }
    let mut s: usize = 0;
    while s < width
        invariant
            s <= width,
            width == g@.len(),
            v == adj_view(g@),
            closed_graph(v),
            fits_petgraph(v),
            callers@.len() == width,
            counts@.len() == width,
            forall|x: int| 0 <= x < width ==> #[trigger] counts@[x] == in_degree(v, s as int, x as usize),
            forall|x: int, m: int| 0 <= x < width && 0 <= m < callers@[x]@.len() ==> #[trigger] callers@[x]@[m] < s,
            forall|x: int, m1: int, m2: int| 0 <= x < width && 0 <= m1 < m2 < callers@[x]@.len() ==> #[trigger] callers@[x]@[m1] < #[trigger] callers@[x]@[m2],
            forall|x: int, y: usize| 0 <= x < width ==> (#[trigger] callers@[x]@.contains(y) <==> ((y as int) < s && v[y as int].contains(x as usize))),
            forall|x: int| 0 <= x < width ==> (#[trigger] callers@[x])@.len() <= s,
        decreases width - s,
    {
        let row = &g[s];
        proof {
            assert(row@ == v[s as int]);
            lemma_in_degree_bound(v, s as int, 0);
        }
        let mut k: usize = 0;
        while k < row.len()
            invariant
                k <= row@.len(),
                s < width,
                width == g@.len(),
                v == adj_view(g@),
                row@ == v[s as int],
                closed_graph(v),
                fits_petgraph(v),
                callers@.len() == width,
                counts@.len() == width,
                forall|x: int| 0 <= x < width ==> #[trigger] counts@[x] == in_degree(v, s as int, x as usize) + occurrences(row@.take(k as int), x as usize),
                forall|x: int, m: int| 0 <= x < width && 0 <= m < callers@[x]@.len() ==> #[trigger] callers@[x]@[m] <= s,
                forall|x: int, m1: int, m2: int| 0 <= x < width && 0 <= m1 < m2 < callers@[x]@.len() ==> #[trigger] callers@[x]@[m1] < #[trigger] callers@[x]@[m2],
                forall|x: int, y: usize| 0 <= x < width ==> (#[trigger] callers@[x]@.contains(y) <==> (((y as int) < s && v[y as int].contains(x as usize)) || (y == s && row@.take(k as int).contains(x as usize)))),
                forall|x: int| 0 <= x < width ==> (#[trigger] callers@[x])@.len() <= s || ((callers@[x])@.len() == s + 1 && callers@[x]@[callers@[x]@.len() - 1] == s),
            decreases row.len() - k,
        {
            let t = row[k];
            proof {
                assert(v[s as int][k as int] == t);
                assert(t < width);
                assert(row@.take(k + 1) =~= row@.take(k as int).push(t));
                lemma_in_degree_bound(v, s as int, t);
                lemma_occurrences_bound(row@.take(k as int), t);
                assert(row@.len() <= 50_000);
            }
            let c = counts[t];
            counts.set(t, c + 1);
            proof {
                assert forall|x: int| 0 <= x < width implies #[trigger] counts@[x] == in_degree(v, s as int, x as usize) + occurrences(row@.take(k + 1), x as usize) by {
                    assert(row@.take(k + 1).drop_last() =~= row@.take(k as int));
                }
            }
            let list = &callers[t];
            let fresh = list.len() == 0 || list[list.len() - 1] != s;
            if fresh {
                let grown = appended(&callers[t], s);
                let ghost prior = callers@;
                proof {
                    assert forall|m: int| 0 <= m < prior[t as int]@.len() implies #[trigger] prior[t as int]@[m] < s by {
                        if prior[t as int]@.len() > 0 {
                            let last = prior[t as int]@.len() - 1;
                            assert(prior[t as int]@[last] != s);
                            assert(prior[t as int]@[last] <= s);
                            if m < last {
                                assert(prior[t as int]@[m] < prior[t as int]@[last]);
                            }
                        }
                    }
                }
                callers.set(t, grown);
                proof {
                    assert forall|x: int| 0 <= x < width implies (#[trigger] callers@[x])@.len() <= s || ((callers@[x])@.len() == s + 1 && callers@[x]@[callers@[x]@.len() - 1] == s) by {
                        if x != t {
                            assert(callers@[x] == prior[x]);
                        }
                    }
                    assert forall|x: int, m: int| 0 <= x < width && 0 <= m < callers@[x]@.len() implies #[trigger] callers@[x]@[m] <= s by {
                        if x == t {
                            if m < prior[x]@.len() {
                                assert(callers@[x]@[m] == prior[x]@[m]);
                            }
                        } else {
                            assert(callers@[x] == prior[x]);
                        }
                    }
                    assert forall|x: int, m1: int, m2: int| 0 <= x < width && 0 <= m1 < m2 < callers@[x]@.len() implies #[trigger] callers@[x]@[m1] < #[trigger] callers@[x]@[m2] by {
                        if x == t {
                            assert(callers@[x]@[m1] == prior[x]@[m1]);
                            if m2 < prior[x]@.len() {
                                assert(callers@[x]@[m2] == prior[x]@[m2]);
                            }
                        } else {
                            assert(callers@[x] == prior[x]);
                        }
                    }
                    assert forall|x: int, y: usize| 0 <= x < width implies (#[trigger] callers@[x]@.contains(y) <==> (((y as int) < s && v[y as int].contains(x as usize)) || (y == s && row@.take(k + 1).contains(x as usize)))) by {
                        if x == t {
                            if callers@[x]@.contains(y) && y != s {
                                let m = choose|m: int| 0 <= m < callers@[x]@.len() && callers@[x]@[m] == y;
                                assert(m < prior[x]@.len());
                                assert(prior[x]@[m] == y);
                                assert(prior[x]@.contains(y));
                            }
                            if y == s {
                                assert(callers@[x]@[callers@[x]@.len() - 1] == s);
                                assert(callers@[x]@.contains(y));
                                assert(row@.take(k + 1)[k as int] == t);
                                assert(row@.take(k + 1).contains(x as usize));
                            }
                            if (y as int) < s && v[y as int].contains(x as usize) {
                                assert(prior[x]@.contains(y));
                                let m = choose|m: int| 0 <= m < prior[x]@.len() && prior[x]@[m] == y;
                                assert(callers@[x]@[m] == y);
                            }
                        } else {
                            assert(callers@[x] == prior[x]);
                            if y == s && row@.take(k + 1).contains(x as usize) {
                                let j = choose|j: int| 0 <= j < k + 1 && #[trigger] row@.take(k + 1)[j] == x as usize;
                                assert(j < k);
                                assert(row@.take(k as int)[j] == x as usize);
                                assert(row@.take(k as int).contains(x as usize));
                            }
                            if y == s && row@.take(k as int).contains(x as usize) {
                                let j = choose|j: int| 0 <= j < k && #[trigger] row@.take(k as int)[j] == x as usize;
                                assert(row@.take(k + 1)[j] == x as usize);
                                assert(row@.take(k + 1).contains(x as usize));
                            }
                        }
                    }
                }
            } else {
                proof {
                    assert(callers@[t as int]@.contains(s));
                    assert forall|x: int, y: usize| 0 <= x < width implies (#[trigger] callers@[x]@.contains(y) <==> (((y as int) < s && v[y as int].contains(x as usize)) || (y == s && row@.take(k + 1).contains(x as usize)))) by {
                        if y == s && row@.take(k + 1).contains(x as usize) && x != t {
                            let j = choose|j: int| 0 <= j < k + 1 && #[trigger] row@.take(k + 1)[j] == x as usize;
                            assert(row@.take(k as int)[j] == x as usize);
                        }
                        if y == s && x == t {
                            assert(row@.take(k + 1)[k as int] == t);
                            let m = choose|m: int| 0 <= m < callers@[x]@.len() && callers@[x]@[m] == s;
                            assert(callers@[x]@[callers@[x]@.len() - 1] == s) by {
                                if m < callers@[x]@.len() - 1 {
                                    assert(callers@[x]@[m] < callers@[x]@[callers@[x]@.len() - 1]);
                                }
                            }
                            assert(row@.take(k as int).contains(x as usize));
                        }
                    }
                }
            }
            k += 1;
        }
        proof {
            assert(row@.take(k as int) =~= row@);
            assert forall|x: int, y: usize| 0 <= x < width implies (#[trigger] callers@[x]@.contains(y) <==> ((y as int) < s + 1 && v[y as int].contains(x as usize))) by {}
            assert forall|x: int| 0 <= x < width implies (#[trigger] callers@[x])@.len() <= s + 1 by {}
        }
        s += 1;
    }
    proof {
        assert forall|t: int| 0 <= t < width implies (#[trigger] callers@[t])@.no_duplicates() && callers@[t]@.to_set() == callers_of(v, t as usize) by {
            assert(callers@[t]@.to_set() =~= callers_of(v, t as usize));
        }
    }
    (callers, counts)
}

/// One strongly connected component of the selected call graph.
#[derive(Debug, Clone)]
pub struct RecursiveComponent {
    pub id: String,
    pub members: Vec<String>,
    pub recursive: bool,
}

/// A call from one component into another.
#[derive(Debug, Clone)]
pub struct ComponentLink {
    pub source: String,
    pub target: String,
}

/// Fan and source counts of one selected definition.
#[derive(Debug, Clone)]
pub struct DefinitionMetrics {
    pub definition_id: String,
    pub distinct_callers: u32,
    pub distinct_callees: u32,
    pub incoming_call_sites: u32,
    pub outgoing_call_sites: u32,
    pub unknown_call_sites: u32,
    pub source_lines: u32,
    pub source_branches: u32,
    pub source_returns: u32,
    pub source_awaits: u32,
    pub source_unsafe_blocks: u32,
    pub declared_public: bool,
}

/// Components, links, per-definition metrics and their distributions over a selected call
/// graph.
#[derive(Debug, Clone)]
pub struct GraphAnalysis {
    pub envelope: AnalysisEnvelope,
    pub selected_nodes: u32,
    pub selected_call_sites: u32,
    pub components: Vec<RecursiveComponent>,
    pub component_links: Vec<ComponentLink>,
    pub metrics: Vec<DefinitionMetrics>,
    pub distributions: Vec<MetricDistribution>,
    pub unknown_frontier: Vec<UnknownFrontier>,
}

/// The identity of a component: the SHA-256 digest of the domain `selected-scc`, a zero
/// byte and the JSON list of its members.
pub open spec fn component_digest(members: Seq<String>) -> Seq<char> {
    sha256_hex(encode_utf8("selected-scc"@) + seq![0u8] + json_of_texts(texts(members)))
}

/// The identities of the selected nodes `slots`.
pub open spec fn slot_ids(n: Seq<Definition>, sel: Seq<usize>, slots: Seq<usize>) -> Seq<String> {
    slots.map_values(|x: usize| n[sel[x as int] as int].id)
}

/// Whether `rc` reports the component whose nodes are `cs` (ascending).
pub open spec fn component_matches(
    n: Seq<Definition>,
    sel: Seq<usize>,
    g: Seq<Seq<usize>>,
    cs: Seq<usize>,
    rc: RecursiveComponent,
) -> bool {
    &&& rc.members@ == slot_ids(n, sel, cs)
    &&& rc.recursive == (cs.len() > 1 || g[cs[0] as int].contains(cs[0]))
    &&& rc.id@ == component_digest(rc.members@)
}

/// The component that holds node `x`.
pub open spec fn component_of(comps: Seq<Seq<usize>>, x: usize) -> int {
    choose|c: int| 0 <= c < comps.len() && #[trigger] comps[c].contains(x)
}

/// Whether link `a` is listed before link `b`: by source, then by target.
pub open spec fn link_before(a: ComponentLink, b: ComponentLink) -> bool {
    lex_lt(key(a.source), key(b.source)) || (key(a.source) == key(b.source) && lex_lt(
        key(a.target),
        key(b.target),
    ))
}

/// Whether the edge `s -> g[s][k]` joins two different components.
pub open spec fn crossing(g: Seq<Seq<usize>>, comps: Seq<Seq<usize>>, s: int, k: int) -> bool {
    0 <= s < g.len() && 0 <= k < g[s].len() && component_of(comps, s as usize) != component_of(
        comps,
        g[s][k],
    )
}

/// Whether link `l` joins the components of some crossing edge.
pub open spec fn link_justified(
    g: Seq<Seq<usize>>,
    comps: Seq<Seq<usize>>,
    rcs: Seq<RecursiveComponent>,
    l: ComponentLink,
) -> bool {
    exists|s: int, k: int|
        #[trigger] crossing(g, comps, s, k) && l.source == rcs[component_of(comps, s as usize)].id
            && l.target == rcs[component_of(comps, g[s][k])].id
}

/// Whether the crossing edge `s -> g[s][k]` has its link among `links`.
pub open spec fn crossing_linked(
    g: Seq<Seq<usize>>,
    comps: Seq<Seq<usize>>,
    rcs: Seq<RecursiveComponent>,
    links: Seq<ComponentLink>,
    s: int,
    k: int,
) -> bool {
    exists|m: int|
        0 <= m < links.len() && key(#[trigger] links[m].source) == key(rcs[component_of(comps, s as usize)].id)
            && key(links[m].target) == key(rcs[component_of(comps, g[s][k])].id)
}

/// Whether `links` lists, once each and ordered by source then target, the pairs of
/// component identities joined by an edge.
pub open spec fn links_listed(
    g: Seq<Seq<usize>>,
    comps: Seq<Seq<usize>>,
    rcs: Seq<RecursiveComponent>,
    links: Seq<ComponentLink>,
) -> bool {
    &&& forall|m1: int, m2: int| 0 <= m1 < m2 < links.len() ==> link_before(#[trigger] links[m1], #[trigger] links[m2])
    &&& forall|m: int| 0 <= m < links.len() ==> link_justified(g, comps, rcs, #[trigger] links[m])
    &&& forall|s: int, k: int| #[trigger] crossing(g, comps, s, k) ==> crossing_linked(g, comps, rcs, links, s, k)
}

/// The metrics of the selected node at slot `s`.
pub open spec fn expected_metrics(
    n: Seq<Definition>,
    sel: Seq<usize>,
    g: Seq<Seq<usize>>,
    leaving: Seq<int>,
    s: int,
) -> DefinitionMetrics {
    let d = n[sel[s] as int];
    DefinitionMetrics {
        definition_id: d.id,
        distinct_callers: callers_of(g, s as usize).len() as u32,
        distinct_callees: g[s].to_set().len() as u32,
        incoming_call_sites: in_degree(g, g.len() as int, s as usize) as u32,
        outgoing_call_sites: (g[s].len() + leaving[s]) as u32,
        unknown_call_sites: leaving[s] as u32,
        source_lines: d.metrics.lines,
        source_branches: d.metrics.branches,
        source_returns: d.metrics.returns,
        source_awaits: d.metrics.awaits,
        source_unsafe_blocks: d.metrics.unsafe_blocks,
        declared_public: d.visibility@ == "pub"@,
    }
}

/// Whether `ds` are the distributions of the metrics `ms`: none when there are no metrics,
/// else source lines, distinct callers, distinct callees and unsafe blocks, in that order.
pub open spec fn distributions_of(ms: Seq<DefinitionMetrics>, ds: Seq<MetricDistribution>) -> bool {
    if ms.len() == 0 {
        ds.len() == 0
    } else {
        &&& ds.len() == 4
        &&& ds[0].metric@ == "source_lines"@ && summarizes(ms.map_values(|m: DefinitionMetrics| m.source_lines), ds[0])
        &&& ds[1].metric@ == "distinct_callers"@ && summarizes(ms.map_values(|m: DefinitionMetrics| m.distinct_callers), ds[1])
        &&& ds[2].metric@ == "distinct_callees"@ && summarizes(ms.map_values(|m: DefinitionMetrics| m.distinct_callees), ds[2])
        &&& ds[3].metric@ == "source_unsafe_blocks"@ && summarizes(ms.map_values(|m: DefinitionMetrics| m.source_unsafe_blocks), ds[3])
    }
}

/// Whether `t` is the analysis of the selection, given the retained nodes `sel`, retained
/// call sites `kept`, handling order `order` and components `comps` (each fixed by the
/// selection).
pub open spec fn graph_report_from(
    n: Seq<Definition>,
    e: Seq<Relation>,
    coverage: Coverage,
    input_truncated: bool,
    limits: AnalysisLimits,
    sel: Seq<usize>,
    kept: Seq<usize>,
    order: Seq<usize>,
    comps: Seq<Seq<usize>>,
    t: GraphAnalysis,
) -> bool {
    let g = targets_after(n, sel, e, order);
    let leaving = leaving_after(n, sel, e, order);
    &&& kept_nodes(n, limits.max_nodes as int, sel)
    &&& kept_calls(e, limits.max_edges as int, kept)
    &&& handling_order(e, kept, order)
    &&& components_listed(g, comps)
    &&& t.envelope.algorithm_version@ == "selected-call-graph-scc-metrics-v1"@
    &&& texts(t.envelope.assumptions@) == graph_assumptions()
    &&& t.envelope.truncated == selection_truncated(n, e, input_truncated, limits, kept)
    &&& !t.envelope.cancelled && !t.envelope.deadline_reached
    &&& coverage_view(t.envelope.coverage) == with_gaps(
        coverage_view(coverage),
        (if selection_truncated(n, e, input_truncated, limits, kept) {
            seq![(UnknownReason::BudgetExhausted, truncation_message())]
        } else {
            Seq::empty()
        }) + configuration_gaps(n, sel) + gaps_after(n, sel, e, order),
    )
    &&& t.selected_nodes == sel.len()
    &&& t.selected_call_sites == count_after(n, sel, e, order)
    &&& t.components@.len() == comps.len()
    &&& forall|c: int| 0 <= c < comps.len() ==> component_matches(n, sel, g, comps[c], #[trigger] t.components@[c])
    &&& links_listed(g, comps, t.components@, t.component_links@)
    &&& t.metrics@.len() == sel.len()
    &&& forall|s: int| 0 <= s < sel.len() ==> #[trigger] t.metrics@[s] == expected_metrics(n, sel, g, leaving, s)
    &&& distributions_of(t.metrics@, t.distributions@)
    &&& frontier_listed(e, frontier_after(n, sel, e, order), t.unknown_frontier@)
}

/// The identity of a component with the given members.
fn component_id(members: &Vec<String>) -> (r: String)
    ensures
        r@ == component_digest(members@),
{
    let domain = "selected-scc".as_bytes();
    let json = json_bytes(members);
    let mut bytes: Vec<u8> = Vec::new();
    let mut i: usize = 0;
    while i < domain.len()
        invariant
            i <= domain@.len(),
            bytes@ == domain@.take(i as int),
        decreases domain.len() - i,
    {
        bytes.push(domain[i]);
        proof {
            assert(bytes@ =~= domain@.take(i + 1));
        }
        i += 1;
    }
    bytes.push(0u8);
    let ghost head = bytes@;
    proof {
        assert(domain@.take(i as int) =~= domain@);
    }
    let mut j: usize = 0;
    while j < json.len()
        invariant
            j <= json@.len(),
            bytes@ == head + json@.take(j as int),
        decreases json.len() - j,
    {
        bytes.push(json[j]);
        proof {
            assert(bytes@ =~= head + json@.take(j + 1));
        }
        j += 1;
    }
    proof {
        assert(json@.take(j as int) =~= json@);
        reveal_strlit("selected-scc");
        assert(bytes@ =~= encode_utf8("selected-scc"@) + seq![0u8] + json_of_texts(texts(members@)));
    }
    sha256_text(bytes.as_slice())
}

/// The identities of the selected nodes `cs`.
fn slot_names(nodes: &[Definition], sel: &Vec<usize>, cs: &Vec<usize>) -> (r: Vec<String>)
    requires
        forall|k: int| 0 <= k < cs@.len() ==> #[trigger] cs@[k] < sel@.len(),
        forall|m: int| 0 <= m < sel@.len() ==> #[trigger] sel@[m] < nodes@.len(),
    ensures
        r@ == slot_ids(nodes@, sel@, cs@),
{
    let mut out: Vec<String> = Vec::new();
    let mut k: usize = 0;
    while k < cs.len()
        invariant
            k <= cs@.len(),
            forall|k2: int| 0 <= k2 < cs@.len() ==> #[trigger] cs@[k2] < sel@.len(),
            forall|m: int| 0 <= m < sel@.len() ==> #[trigger] sel@[m] < nodes@.len(),
            out@ == slot_ids(nodes@, sel@, cs@.take(k as int)),
        decreases cs.len() - k,
    {
        let slot = cs[k];
        let name = nodes[sel[slot]].id.clone();
        out.push(name);
        proof {
            assert(slot_ids(nodes@, sel@, cs@.take(k + 1)) =~= slot_ids(nodes@, sel@, cs@.take(k as int)).push(nodes@[sel@[slot as int] as int].id));
        }
        k += 1;
    }
    proof {
        assert(cs@.take(k as int) =~= cs@);
    }
    out
}

fn row_contains(row: &Vec<usize>, x: usize) -> (r: bool)
    ensures
        r == row@.contains(x),
{
    let mut k: usize = 0;
    while k < row.len()
        invariant
            k <= row@.len(),
            forall|j: int| 0 <= j < k ==> row@[j] != x,
        decreases row.len() - k,
    {
        if row[k] == x {
            return true;
        }
        k += 1;
    }
    false
}

/// The component records, in order, stopping early when asked (`None` then).
fn component_records(
    nodes: &[Definition],
    sel: &Vec<usize>,
    g: &Vec<Vec<usize>>,
    comps: &Vec<Vec<usize>>,
    envelope: &mut AnalysisEnvelope,
    control: &AnalysisControl,
) -> (r: Option<Vec<RecursiveComponent>>)
    requires
        g@.len() == sel@.len(),
        forall|m: int| 0 <= m < sel@.len() ==> #[trigger] sel@[m] < nodes@.len(),
        components_listed(adj_view(g@), adj_view(comps@)),
    ensures
        r matches Some(rcs) ==> *final(envelope) == *old(envelope) && rcs@.len() == comps@.len()
            && forall|c: int| 0 <= c < comps@.len() ==> component_matches(nodes@, sel@, adj_view(g@), comps@[c]@, #[trigger] rcs@[c]),
        r is None ==> envelope_step(*old(envelope), *final(envelope), seq![stop_gap()]) && final(envelope).truncated && stopped_env(*final(envelope)),
{
    let mut out: Vec<RecursiveComponent> = Vec::new();
    let mut c: usize = 0;
    while c < comps.len()
        invariant
            c <= comps@.len(),
            g@.len() == sel@.len(),
            forall|m: int| 0 <= m < sel@.len() ==> #[trigger] sel@[m] < nodes@.len(),
            components_listed(adj_view(g@), adj_view(comps@)),
            *envelope == *old(envelope),
            out@.len() == c,
            forall|c2: int| 0 <= c2 < c ==> component_matches(nodes@, sel@, adj_view(g@), comps@[c2]@, #[trigger] out@[c2]),
        decreases comps.len() - c,
    {
        if control.stopped() {
            halt(envelope, control);
            return None;
        }
        let cs = &comps[c];
        proof {
            assert(adj_view(comps@)[c as int] == cs@);
            assert forall|k: int| 0 <= k < cs@.len() implies #[trigger] cs@[k] < sel@.len() by {
                assert(adj_view(comps@)[c as int][k] == cs@[k]);
            }
        }
        let members = slot_names(nodes, sel, cs);
        let first = cs[0];
        let recursive = cs.len() > 1 || row_contains(&g[first], first);
        proof {
            assert(adj_view(g@)[first as int] == g@[first as int]@);
        }
        let id = component_id(&members);
        out.push(RecursiveComponent { id, members, recursive });
        proof {
            assert forall|c2: int| 0 <= c2 < c + 1 implies component_matches(nodes@, sel@, adj_view(g@), comps@[c2]@, #[trigger] out@[c2]) by {
                if c2 < c {
                }
            }
        }
        c += 1;
    }
    Some(out)
}

proof fn lemma_component_of(comps: Seq<Seq<usize>>, c: int, x: usize)
    requires
        0 <= c < comps.len(),
        comps[c].contains(x),
        forall|c1: int, c2: int, y: usize|
            0 <= c1 < comps.len() && 0 <= c2 < comps.len() && #[trigger] comps[c1].contains(y) && #[trigger] comps[c2].contains(y) ==> c1 == c2,
    ensures
        component_of(comps, x) == c,
{
    let d = component_of(comps, x);
    assert(0 <= d < comps.len() && comps[d].contains(x));
}

fn link_goes_before(a: &ComponentLink, b: &ComponentLink) -> (r: bool)
    ensures
        r == link_before(*a, *b),
{
    let (sa, sb) = (bytes_of(&a.source), bytes_of(&b.source));
    if bytes_lt(sa, sb) {
        true
    } else if bytes_eq(sa, sb) {
        bytes_lt(bytes_of(&a.target), bytes_of(&b.target))
    } else {
        false
    }
}

/// Whether two links join the same pair of identities.
pub open spec fn same_link(a: ComponentLink, b: ComponentLink) -> bool {
    key(a.source) == key(b.source) && key(a.target) == key(b.target)
}

fn is_same_link(a: &ComponentLink, b: &ComponentLink) -> (r: bool)
    ensures
        r == same_link(*a, *b),
{
    bytes_eq(bytes_of(&a.source), bytes_of(&b.source)) && bytes_eq(bytes_of(&a.target), bytes_of(&b.target))
}

proof fn lemma_link_order(a: ComponentLink, b: ComponentLink, c: ComponentLink)
    ensures
        !same_link(a, b) ==> link_before(a, b) || link_before(b, a),
        !(link_before(a, b) && link_before(b, a)),
        !link_before(a, a),
        link_before(a, b) ==> !same_link(a, b),
        link_before(a, b) && link_before(b, c) ==> link_before(a, c),
{
    lemma_lex_total(key(a.source), key(b.source));
    lemma_lex_total(key(a.target), key(b.target));
    lemma_lex_irreflexive(key(a.source));
    lemma_lex_irreflexive(key(a.target));
    if link_before(a, b) && link_before(b, c) {
        if lex_lt(key(a.source), key(b.source)) && lex_lt(key(b.source), key(c.source)) {
            lemma_lex_transitive(key(a.source), key(b.source), key(c.source));
        } else if key(a.source) == key(b.source) && key(b.source) == key(c.source) {
            lemma_lex_transitive(key(a.target), key(b.target), key(c.target));
        }
    }
}

pub open spec fn links_sorted(links: Seq<ComponentLink>) -> bool {
    forall|m1: int, m2: int| 0 <= m1 < m2 < links.len() ==> link_before(#[trigger] links[m1], #[trigger] links[m2])
}

/// Adds `l` at its place unless a link with the same identities is there.
fn insert_link(links: &mut Vec<ComponentLink>, l: ComponentLink)
    requires
        links_sorted(old(links)@),
    ensures
        links_sorted(final(links)@),
        (exists|m: int| 0 <= m < old(links)@.len() && same_link(#[trigger] old(links)@[m], l)) && final(links)@ == old(links)@
            || exists|at: int| 0 <= at <= old(links)@.len() && final(links)@ == old(links)@.insert(at, l),
{
    let mut at: usize = 0;
    while at < links.len() && link_goes_before(&links[at], &l)
        invariant
            at <= links@.len(),
            forall|m: int| 0 <= m < at ==> link_before(#[trigger] links@[m], l),
        decreases links.len() - at,
    {
        at += 1;
    }
    if at < links.len() && is_same_link(&links[at], &l) {
        return;
    }
    let ghost before = links@;
    proof {
        assert forall|m: int| at <= m < before.len() implies link_before(l, #[trigger] before[m]) by {
            lemma_link_order(l, before[m], l);
            lemma_link_order(before[at as int], l, l);
            if m > at {
                lemma_link_order(l, before[at as int], before[m]);
                assert(link_before(before[at as int], before[m]));
            }
        }
    }
    links.insert(at, l);
    proof {
        assert(links@ =~= before.insert(at as int, l));
        assert forall|m1: int, m2: int| 0 <= m1 < m2 < links@.len() implies link_before(#[trigger] links@[m1], #[trigger] links@[m2]) by {
            if m2 < at {
            } else if m2 == at {
            } else if m1 < at {
                assert(links@[m2] == before[m2 - 1]);
                lemma_link_order(links@[m1], l, links@[m2]);
            } else if m1 == at {
                assert(links@[m2] == before[m2 - 1]);
            } else {
                assert(links@[m1] == before[m1 - 1]);
                assert(links@[m2] == before[m2 - 1]);
            }
        }
    }
}

/// The links between components, stopping early when asked (the flag says so).
fn component_links(
    g: &Vec<Vec<usize>>,
    comps: Ghost<Seq<Seq<usize>>>,
    label: &Vec<usize>,
    rcs: &Vec<RecursiveComponent>,
    envelope: &mut AnalysisEnvelope,
    control: &AnalysisControl,
) -> (r: (Vec<ComponentLink>, bool))
    requires
        closed_graph(adj_view(g@)),
        label@.len() == g@.len(),
        rcs@.len() == comps@.len(),
        forall|x: int| 0 <= x < g@.len() ==> #[trigger] label@[x] < comps@.len() && comps@[label@[x] as int].contains(x as usize),
        forall|c1: int, c2: int, y: usize|
            0 <= c1 < comps@.len() && 0 <= c2 < comps@.len() && #[trigger] comps@[c1].contains(y) && #[trigger] comps@[c2].contains(y) ==> c1 == c2,
    ensures
        !r.1 ==> links_listed(adj_view(g@), comps@, rcs@, r.0@) && *final(envelope) == *old(envelope),
        r.1 ==> envelope_step(*old(envelope), *final(envelope), seq![stop_gap()]) && final(envelope).truncated && stopped_env(*final(envelope)),
{
    let ghost v = adj_view(g@);
    let ghost cm = comps@;
    proof {
        assert forall|x: int| 0 <= x < g@.len() implies component_of(cm, x as usize) == #[trigger] label@[x] by {
            lemma_component_of(cm, label@[x] as int, x as usize);
        }
    }
    let mut links: Vec<ComponentLink> = Vec::new();
    let mut s: usize = 0;
    while s < g.len()
        invariant
            s <= g@.len(),
            v == adj_view(g@),
            cm == comps@,
            closed_graph(v),
            label@.len() == g@.len(),
            rcs@.len() == cm.len(),
            forall|x: int| 0 <= x < g@.len() ==> #[trigger] label@[x] < cm.len(),
            forall|x: int| 0 <= x < g@.len() ==> component_of(cm, x as usize) == #[trigger] label@[x],
            *envelope == *old(envelope),
            links_sorted(links@),
            forall|m: int| 0 <= m < links@.len() ==> link_justified(v, cm, rcs@, #[trigger] links@[m]),
            forall|s2: int, k2: int| s2 < s && #[trigger] crossing(v, cm, s2, k2) ==> crossing_linked(v, cm, rcs@, links@, s2, k2),
        decreases g.len() - s,
    {
        if control.stopped() {
            halt(envelope, control);
            return (links, true);
        }
        let row = &g[s];
        let mut k: usize = 0;
        while k < row.len()
            invariant
                s < g@.len(),
                k <= row@.len(),
                row@ == v[s as int],
                v == adj_view(g@),
                cm == comps@,
                closed_graph(v),
                label@.len() == g@.len(),
                rcs@.len() == cm.len(),
                forall|x: int| 0 <= x < g@.len() ==> #[trigger] label@[x] < cm.len(),
                forall|x: int| 0 <= x < g@.len() ==> component_of(cm, x as usize) == #[trigger] label@[x],
                links_sorted(links@),
                forall|m: int| 0 <= m < links@.len() ==> link_justified(v, cm, rcs@, #[trigger] links@[m]),
                forall|s2: int, k2: int| (s2 < s || (s2 == s && k2 < k)) && #[trigger] crossing(v, cm, s2, k2) ==> crossing_linked(v, cm, rcs@, links@, s2, k2),
            decreases row.len() - k,
        {
            let t = row[k];
            proof {
                assert(v[s as int][k as int] == t);
                assert(t < g@.len());
            }
            let ls = label[s];
            let lt = label[t];
            if ls != lt {
                let l = ComponentLink { source: rcs[ls].id.clone(), target: rcs[lt].id.clone() };
                let ghost before = links@;
                proof {
                    assert(crossing(v, cm, s as int, k as int));
                }
                insert_link(&mut links, l);
                proof {
                    assert(link_justified(v, cm, rcs@, l)) by {
                        assert(crossing(v, cm, s as int, k as int));
                        assert(component_of(cm, s as usize) == ls);
                        assert(component_of(cm, v[s as int][k as int]) == lt);
                    }
                    assert forall|m: int| 0 <= m < links@.len() implies link_justified(v, cm, rcs@, #[trigger] links@[m]) by {
                        if links@ == before {
                            assert(link_justified(v, cm, rcs@, before[m]));
                        } else {
                            let at = choose|at: int| 0 <= at <= before.len() && links@ == before.insert(at, l);
                            if m == at {
                                assert(links@[m] == l);
                            } else if m < at {
                                assert(links@[m] == before[m]);
                                assert(link_justified(v, cm, rcs@, before[m]));
                            } else {
                                assert(links@[m] == before[m - 1]);
                                assert(link_justified(v, cm, rcs@, before[m - 1]));
                            }
                        }
                    }
                    assert forall|s2: int, k2: int| (s2 < s || (s2 == s && k2 < k + 1)) && #[trigger] crossing(v, cm, s2, k2) implies crossing_linked(v, cm, rcs@, links@, s2, k2) by {
                        if s2 == s && k2 == k {
                            assert(component_of(cm, s as usize) == ls);
                            assert(component_of(cm, v[s as int][k as int]) == lt);
                            if links@ == before {
                                let m = choose|m: int| 0 <= m < before.len() && same_link(#[trigger] before[m], l);
                                assert(links@[m] == before[m]);
                            } else {
                                let at = choose|at: int| 0 <= at <= before.len() && links@ == before.insert(at, l);
                                assert(links@[at] == l);
                            }
                        } else {
                            assert(crossing_linked(v, cm, rcs@, before, s2, k2));
                            let m = choose|m: int| 0 <= m < before.len() && key(#[trigger] before[m].source) == key(rcs@[component_of(cm, s2 as usize)].id)
                                && key(before[m].target) == key(rcs@[component_of(cm, v[s2][k2])].id);
                            if links@ == before {
                                assert(links@[m] == before[m]);
                            } else {
                                let at = choose|at: int| 0 <= at <= before.len() && links@ == before.insert(at, l);
                                if m < at {
                                    assert(links@[m] == before[m]);
                                } else {
                                    assert(links@[m + 1] == before[m]);
                                }
                            }
                        }
                    }
                }
            } else {
                proof {
                    assert(!crossing(v, cm, s as int, k as int));
                }
            }
            k += 1;
        }
        s += 1;
    }
    (links, false)
}

/// The metrics of every selected node, in order, stopping early when asked (the flag says
/// so).
fn definition_metrics(
    nodes: &[Definition],
    sel: &Vec<usize>,
    g: &Vec<Vec<usize>>,
    leaving: &Vec<u32>,
    lv: Ghost<Seq<int>>,
    envelope: &mut AnalysisEnvelope,
    control: &AnalysisControl,
) -> (r: (Vec<DefinitionMetrics>, bool))
    requires
        closed_graph(adj_view(g@)),
        fits_petgraph(adj_view(g@)),
        g@.len() == sel@.len(),
        leaving@.len() == sel@.len(),
        forall|m: int| 0 <= m < sel@.len() ==> #[trigger] sel@[m] < nodes@.len(),
        forall|x: int| 0 <= x < sel@.len() ==> #[trigger] leaving@[x] <= 50_000 && leaving@[x] == lv@[x],
    ensures
        r.0@.len() <= sel@.len(),
        !r.1 ==> *final(envelope) == *old(envelope) && r.0@.len() == sel@.len() && forall|s: int|
            0 <= s < sel@.len() ==> #[trigger] r.0@[s] == expected_metrics(nodes@, sel@, adj_view(g@), lv@, s),
        r.1 ==> envelope_step(*old(envelope), *final(envelope), seq![stop_gap()]) && final(envelope).truncated && stopped_env(*final(envelope)),
{
    let ghost v = adj_view(g@);
    let (callers, counts) = callers_and_counts(g);
    let mut out: Vec<DefinitionMetrics> = Vec::new();
    let mut s: usize = 0;
    while s < sel.len()
        invariant
            s <= sel@.len(),
            v == adj_view(g@),
            closed_graph(v),
            fits_petgraph(v),
            g@.len() == sel@.len(),
            leaving@.len() == sel@.len(),
            callers@.len() == g@.len(),
            counts@.len() == g@.len(),
            forall|m: int| 0 <= m < sel@.len() ==> #[trigger] sel@[m] < nodes@.len(),
            forall|x: int| 0 <= x < sel@.len() ==> #[trigger] leaving@[x] <= 50_000 && leaving@[x] == lv@[x],
            forall|t: int| 0 <= t < g@.len() ==> (#[trigger] callers@[t])@.no_duplicates() && callers@[t]@.to_set() == callers_of(v, t as usize),
            forall|t: int| 0 <= t < g@.len() ==> #[trigger] counts@[t] == in_degree(v, g@.len() as int, t as usize),
            forall|t: int| 0 <= t < g@.len() ==> (#[trigger] callers@[t])@.len() <= g@.len(),
            *envelope == *old(envelope),
            out@.len() == s,
            forall|s2: int| 0 <= s2 < s ==> #[trigger] out@[s2] == expected_metrics(nodes@, sel@, v, lv@, s2),
        decreases sel.len() - s,
    {
        if control.stopped() {
            halt(envelope, control);
            return (out, true);
        }
        let d = &nodes[sel[s]];
        let row = &g[s];
        proof {
            assert(row@ == v[s as int]);
            assert(row@.len() <= 50_000);
            callers@[s as int]@.unique_seq_to_set();
        }
        let callees = distinct_count(row);
        let public = text_is(d.visibility.as_str(), "pub");
        let m = DefinitionMetrics {
            definition_id: d.id.clone(),
            distinct_callers: callers[s].len() as u32,
            distinct_callees: callees as u32,
            incoming_call_sites: counts[s],
            outgoing_call_sites: (row.len() as u32) + leaving[s],
            unknown_call_sites: leaving[s],
            source_lines: d.metrics.lines,
            source_branches: d.metrics.branches,
            source_returns: d.metrics.returns,
            source_awaits: d.metrics.awaits,
            source_unsafe_blocks: d.metrics.unsafe_blocks,
            declared_public: public,
        };
        out.push(m);
        proof {
            assert(out@[s as int] == expected_metrics(nodes@, sel@, v, lv@, s as int));
        }
        s += 1;
    }
    (out, false)
}

/// The distributions of source lines, distinct callers, distinct callees and unsafe blocks
/// over the metrics (none when there are no metrics).
fn metric_distributions(ms: &Vec<DefinitionMetrics>) -> (r: Vec<MetricDistribution>)
    requires
        ms@.len() <= 10_000,
    ensures
        distributions_of(ms@, r@),
{
    let mut out: Vec<MetricDistribution> = Vec::new();
    if ms.len() == 0 {
        return out;
    }
    let mut lines: Vec<u32> = Vec::new();
    let mut callers: Vec<u32> = Vec::new();
    let mut callees: Vec<u32> = Vec::new();
    let mut blocks: Vec<u32> = Vec::new();
    let mut i: usize = 0;
    while i < ms.len()
        invariant
            i <= ms@.len(),
            lines@ == ms@.take(i as int).map_values(|m: DefinitionMetrics| m.source_lines),
            callers@ == ms@.take(i as int).map_values(|m: DefinitionMetrics| m.distinct_callers),
            callees@ == ms@.take(i as int).map_values(|m: DefinitionMetrics| m.distinct_callees),
            blocks@ == ms@.take(i as int).map_values(|m: DefinitionMetrics| m.source_unsafe_blocks),
        decreases ms.len() - i,
    {
        let m = &ms[i];
        lines.push(m.source_lines);
        callers.push(m.distinct_callers);
        callees.push(m.distinct_callees);
        blocks.push(m.source_unsafe_blocks);
        proof {
            assert(lines@ =~= ms@.take(i + 1).map_values(|m: DefinitionMetrics| m.source_lines));
            assert(callers@ =~= ms@.take(i + 1).map_values(|m: DefinitionMetrics| m.distinct_callers));
            assert(callees@ =~= ms@.take(i + 1).map_values(|m: DefinitionMetrics| m.distinct_callees));
            assert(blocks@ =~= ms@.take(i + 1).map_values(|m: DefinitionMetrics| m.source_unsafe_blocks));
        }
        i += 1;
    }
    proof {
        assert(ms@.take(i as int) =~= ms@);
    }
    out.push(distribution("source_lines", &lines));
    out.push(distribution("distinct_callers", &callers));
    out.push(distribution("distinct_callees", &callees));
    out.push(distribution("source_unsafe_blocks", &blocks));
    out
}

/// What a finished analysis of the selection holds before the response byte budget.
pub open spec fn graph_holds(input: SelectedGraph, limits: AnalysisLimits, input_bytes: int, t: GraphAnalysis) -> bool {
    &&& t.envelope.algorithm_version@ == "selected-call-graph-scc-metrics-v1"@
    &&& texts(t.envelope.assumptions@) == graph_assumptions()
    &&& stopped_env(t.envelope) ==> t.envelope.truncated
    &&& !stopped_env(t.envelope) ==> selection_fault(input.nodes@, input.edges@, limits, input_bytes) is None
        && exists|sel: Seq<usize>, kept: Seq<usize>, order: Seq<usize>, comps: Seq<Seq<usize>>|
        #[trigger] graph_report_from(
            input.nodes@,
            input.edges@,
            *input.coverage,
            input.input_truncated,
            limits,
            sel,
            kept,
            order,
            comps,
            t,
        )
}

/// Analyzes the selection up to a finished report, before the response byte budget.
#[verifier::rlimit(80)]
#[verifier::spinoff_prover]
fn graph_report(
    input: &SelectedGraph,
    limits: AnalysisLimits,
    control: &AnalysisControl,
    input_bytes: usize,
) -> (r: Result<GraphAnalysis, AnalysisError>)
    ensures
        r matches Err(err) ==> refusal_holds(input.nodes@, input.edges@, limits, input_bytes as int, err),
        selection_fault(input.nodes@, input.edges@, limits, input_bytes as int) is None ==> r is Ok,
        early_refusal(input.nodes@, input.edges@, limits, input_bytes as int) ==> r is Err,
        r matches Ok(t) ==> graph_holds(*input, limits, input_bytes as int, t),
{
    let pr = match prepare(input, limits, control, "selected-call-graph-scc-metrics-v1", input_bytes) {
        Ok(pr) => pr,
        Err(e) => {
            return Err(e);
        },
    };
    let nodes = input.nodes;
    let Prepared { sel, handled, unknown, mut envelope, halted, kept, order } = pr;
    let ghost prepared_env = envelope;
    let ghost g = adj_view(handled.targets@);
    proof {
        assert(fits_petgraph(g));
        assert(closed_graph(g)) by {
            assert forall|a: int, j: int| 0 <= a < g.len() && 0 <= j < g[a].len() implies #[trigger] g[a][j] < g.len() by {}
        }
    }
    let (comps, label) = canonical_components(&handled.targets);
    let mut components: Vec<RecursiveComponent> = Vec::new();
    let mut complete = false;
    if control.stopped() {
        halt(&mut envelope, control);
    } else {
        match component_records(nodes, &sel, &handled.targets, &comps, &mut envelope, control) {
            Some(rcs) => {
                components = rcs;
                complete = true;
            },
            None => {},
        }
    }
    let ghost after_components = envelope;
    proof {
        if complete {
            assert(after_components == prepared_env);
        }
    }
    let mut links: Vec<ComponentLink> = Vec::new();
    let mut linked = false;
    if complete {
        let (found, stop) = component_links(&handled.targets, Ghost(adj_view(comps@)), &label, &components, &mut envelope, control);
        links = found;
        linked = !stop;
    }
    let ghost after_links = envelope;
    let ghost lv = Seq::new(sel@.len(), |x: int| handled.leaving@[x] as int);
    let (metrics, metrics_stop) = definition_metrics(nodes, &sel, &handled.targets, &handled.leaving, Ghost(lv), &mut envelope, control);
    let distributions = metric_distributions(&metrics);
    let report = GraphAnalysis {
        envelope,
        selected_nodes: sel.len() as u32,
        selected_call_sites: handled.count as u32,
        components,
        component_links: links,
        metrics,
        distributions,
        unknown_frontier: unknown,
    };
    proof {
        let clear = !halted && complete && linked && !metrics_stop;
        if clear {
            assert(report.envelope == prepared_env);
            assert(lv =~= leaving_after(nodes@, sel@, input.edges@, order@)) by {
                lemma_after_widths(nodes@, sel@, input.edges@, order@);
            }
            assert(graph_report_from(
                nodes@,
                input.edges@,
                *input.coverage,
                input.input_truncated,
                limits,
                sel@,
                kept@,
                order@,
                adj_view(comps@),
                report,
            ));
        } else {
            if halted {
                assert(stopped_env(prepared_env));
            }
            if !complete {
                lemma_stop_recorded(coverage_view(prepared_env.coverage));
                assert(stopped_env(after_components));
            } else if halted {
                assert(stopped_env(after_components));
            }
            if complete && !linked {
                lemma_stop_recorded(coverage_view(after_components.coverage));
                assert(stopped_env(after_links));
            } else if stopped_env(after_components) {
                if complete {
                    assert(after_links == after_components);
                }
                assert(stopped_env(after_links));
            }
            if metrics_stop {
                lemma_stop_recorded(coverage_view(after_links.coverage));
            } else {
                assert(report.envelope == after_links);
            }
            assert(stopped_env(report.envelope));
        }
    }
    Ok(report)
}

/// Analyzes the selected call graph: its strongly connected components (members in
/// identity order, components in order of their first member), the links between them,
/// fan and source metrics of every retained definition with their distributions, and the
/// call sites that leave the selection. `input_bytes` is the size of the serialized
/// selection and `response_size` measures the serialized size of a report, as the caller
/// owns serialization; a report over `max_response_bytes` exhausts the budget.
/// Stops early, and says so, when the control asks.
pub fn analyze_graph<F: Fn(&GraphAnalysis) -> usize>(
    input: &SelectedGraph,
    limits: AnalysisLimits,
    control: &AnalysisControl,
    input_bytes: usize,
    response_size: F,
) -> (r: Result<GraphAnalysis, AnalysisError>)
    requires
        forall|t: GraphAnalysis| #[trigger] response_size.requires((&t,)),
    ensures
        early_refusal(input.nodes@, input.edges@, limits, input_bytes as int) ==> r is Err,
        r matches Err(err) ==> refusal_holds(input.nodes@, input.edges@, limits, input_bytes as int, err) || (
            err is BudgetExhausted && exists|full: GraphAnalysis, n: usize|
                graph_holds(*input, limits, input_bytes as int, full) && #[trigger] response_size.ensures((&full,), n)
                    && n > limits.max_response_bytes),
        selection_fault(input.nodes@, input.edges@, limits, input_bytes as int) is None ==> r is Ok || r->Err_0 is BudgetExhausted,
        r matches Ok(t) ==> graph_holds(*input, limits, input_bytes as int, t) && exists|n: usize|
            #[trigger] response_size.ensures((&t,), n) && n <= limits.max_response_bytes,
{
    let report = match graph_report(input, limits, control, input_bytes) {
        Ok(t) => t,
        Err(e) => {
            return Err(e);
        },
    };
    if response_size(&report) > limits.max_response_bytes as usize {
        return Err(AnalysisError::BudgetExhausted);
    }
    Ok(report)
}

proof fn lemma_within_grows(adj: Seq<Seq<usize>>, root: int, j: nat, k: nat, x: int)
    requires
        j <= k,
        within(adj, root, j).contains(x),
    ensures
        within(adj, root, k).contains(x),
    decreases k - j,
{
    if j < k {
        lemma_within_grows(adj, root, j, (k - 1) as nat, x);
    }
}

proof fn lemma_least_steps(adj: Seq<Seq<usize>>, root: int, x: int, k: nat)
    requires
        within(adj, root, k).contains(x),
    ensures
        exists|d: nat| d <= k && within(adj, root, d).contains(x) && forall|j: nat| j < d ==> !#[trigger] within(adj, root, j).contains(x),
    decreases k,
{
    if exists|j: nat| j < k && #[trigger] within(adj, root, j).contains(x) {
        let j = choose|j: nat| j < k && #[trigger] within(adj, root, j).contains(x);
        lemma_least_steps(adj, root, x, j);
    } else {
        assert(forall|j: nat| j < k ==> !#[trigger] within(adj, root, j).contains(x));
    }
}

/// The least number of steps reaches `x`, no fewer do, and no number of steps that reaches
/// `x` is smaller.
proof fn lemma_distance(adj: Seq<Seq<usize>>, root: int, x: int)
    requires
        reachable(adj, root, x),
    ensures
        within(adj, root, distance(adj, root, x)).contains(x),
        forall|j: nat| j < distance(adj, root, x) ==> !#[trigger] within(adj, root, j).contains(x),
        forall|j: nat| #[trigger] within(adj, root, j).contains(x) ==> distance(adj, root, x) <= j,
{
    reveal(distance);
    let k = choose|k: nat| #[trigger] within(adj, root, k).contains(x);
    lemma_least_steps(adj, root, x, k);
    let d = distance(adj, root, x);
    assert forall|j: nat| #[trigger] within(adj, root, j).contains(x) implies d <= j by {
        if j < d {
        }
    }
}

/// An edge from a reachable node leads to a reachable node at most one step further.
proof fn lemma_step_distance(adj: Seq<Seq<usize>>, root: int, y: int, x: int)
    requires
        reachable(adj, root, y),
        step(adj, y, x),
    ensures
        reachable(adj, root, x),
        distance(adj, root, x) <= distance(adj, root, y) + 1,
{
    lemma_distance(adj, root, y);
    let d = distance(adj, root, y);
    assert(within(adj, root, d + 1).contains(x));
    lemma_distance(adj, root, x);
}

/// A reachable node other than the root has a predecessor exactly one step nearer.
proof fn lemma_predecessor(adj: Seq<Seq<usize>>, root: int, x: int) -> (y: int)
    requires
        reachable(adj, root, x),
        x != root,
    ensures
        reachable(adj, root, y),
        step(adj, y, x),
        distance(adj, root, y) + 1 == distance(adj, root, x),
{
    lemma_distance(adj, root, x);
    let d = distance(adj, root, x);
    assert(d > 0) by {
        if d == 0 {
            assert(within(adj, root, 0) == set![root]);
        }
    }
    let prior = within(adj, root, (d - 1) as nat);
    assert(!prior.contains(x));
    let y = choose|a: int| prior.contains(a) && step(adj, a, x);
    assert(reachable(adj, root, y));
    lemma_distance(adj, root, y);
    let dy = distance(adj, root, y);
    assert(dy <= d - 1);
    if dy < d - 1 {
        assert(within(adj, root, dy + 1).contains(x));
        lemma_within_grows(adj, root, dy + 1, (d - 1) as nat, x);
    }
    y
}

/// Whether the node at position `i` of the traversal `o` may still be visited.
pub open spec fn visit_allowed(g: Seq<Seq<usize>>, root: usize, o: Seq<usize>, limits: AnalysisLimits, i: int) -> bool {
    i < limits.max_visits && distance(g, root as int, o[i] as int) <= limits.max_depth
}

/// Whether visiting the first `m` nodes of the traversal `o` is what the search does:
/// it stops at the requested target (`found`), or before the first node beyond the visit
/// or depth budget, or at the end.
pub open spec fn explored(
    g: Seq<Seq<usize>>,
    root: usize,
    o: Seq<usize>,
    limits: AnalysisLimits,
    target: Option<usize>,
    m: int,
    found: bool,
) -> bool {
    &&& 0 <= m <= o.len()
    &&& forall|i: int| 0 <= i < m ==> #[trigger] visit_allowed(g, root, o, limits, i)
    &&& found ==> m >= 1 && target == Some(o[m - 1]) && forall|i: int| 0 <= i < m - 1 ==> target != Some(#[trigger] o[i])
    &&& !found ==> (forall|i: int| 0 <= i < m ==> target != Some(#[trigger] o[i])) && (m == o.len() || !visit_allowed(g, root, o, limits, m))
}

/// Whether `dist` and `prev` record, for every node reached so far, its distance from
/// `root` and the node and call site it was reached from.
pub open spec fn parents_ok(
    g: Seq<Seq<usize>>,
    sites: Seq<Seq<usize>>,
    root: usize,
    dist: Seq<Option<u32>>,
    prev: Seq<Option<(usize, usize)>>,
) -> bool {
    &&& dist.len() == g.len()
    &&& prev.len() == g.len()
    &&& dist[root as int] == Some(0u32)
    &&& prev[root as int] is None
    &&& forall|x: int| 0 <= x < g.len() && (#[trigger] dist[x]) is Some ==> reachable(g, root as int, x) && dist[x]->0 == distance(g, root as int, x)
    &&& forall|x: int| 0 <= x < g.len() && (#[trigger] dist[x]) is Some && x != root ==> parent_ok(g, sites, dist, x, prev[x])
}

/// Whether node `x` was reached from `p`: a node one step nearer, along call site `p.1`.
pub open spec fn parent_ok(
    g: Seq<Seq<usize>>,
    sites: Seq<Seq<usize>>,
    dist: Seq<Option<u32>>,
    x: int,
    p: Option<(usize, usize)>,
) -> bool {
    match p {
        Some((y, site)) => y < g.len() && dist[y as int] is Some && dist[y as int]->0 + 1 == dist[x]->0
            && exists|k: int| 0 <= k < g[y as int].len() && #[trigger] g[y as int][k] == x as usize && sites[y as int][k] == site,
        None => false,
    }
}

/// Whether `y` is the node through which the traversal `o` first reaches `x`, along call
/// site `site`: `y` is the earliest node of `o` with a call to `x`, and `site` is its last
/// such call in handling order, that is the one with the least target and then relation
/// identity.
#[verifier::opaque]
pub open spec fn first_parent(g: Seq<Seq<usize>>, sites: Seq<Seq<usize>>, o: Seq<usize>, x: usize, y: usize, site: usize) -> bool {
    exists|j: int, k: int|
        #![trigger o[j], g[y as int][k]]
        0 <= j < o.len() && o[j] == y && 0 <= k < g[y as int].len() && g[y as int][k] == x && sites[y as int][k] == site
            && (forall|j2: int, k2: int| 0 <= j2 < j && 0 <= k2 < g[o[j2] as int].len() ==> #[trigger] g[o[j2] as int][k2] != x)
            && (forall|k2: int| k < k2 < g[y as int].len() ==> #[trigger] g[y as int][k2] != x)
}

/// Whether every recorded parent is the one through which `o` first reaches its node.
pub open spec fn parents_first(g: Seq<Seq<usize>>, sites: Seq<Seq<usize>>, o: Seq<usize>, prev: Seq<Option<(usize, usize)>>) -> bool {
    forall|x: int| 0 <= x < prev.len() && (#[trigger] prev[x]) is Some ==> first_parent(g, sites, o, x as usize, (prev[x]->0).0, (prev[x]->0).1)
}

/// Whether `o` is a breadth-first traversal of `g` from `root`: it starts at `root`, lists
/// each reachable node once and no other, nearer nodes first.
pub open spec fn breadth_first_shape(g: Seq<Seq<usize>>, root: usize, o: Seq<usize>) -> bool {
    &&& g.len() <= usize::MAX
    &&& o.len() > 0
    &&& o[0] == root
    &&& forall|a: int, b: int| 0 <= a < b < o.len() ==> #[trigger] o[a] != #[trigger] o[b]
    &&& forall|m: int| 0 <= m < o.len() ==> #[trigger] o[m] < g.len()
    &&& forall|x: usize| (x as int) < g.len() ==> (#[trigger] o.contains(x) <==> reachable(g, root as int, x as int))
    &&& forall|a: int, b: int|
        0 <= a <= b < o.len() ==> distance(g, root as int, #[trigger] o[a] as int) <= distance(g, root as int, #[trigger] o[b] as int)
}

/// A node nearer to the root than the `i`-th of a breadth-first traversal comes before it.
proof fn lemma_nearer_first(g: Seq<Seq<usize>>, root: usize, o: Seq<usize>, i: int, y: usize)
    requires
        breadth_first_shape(g, root, o),
        0 <= i < o.len(),
        (y as int) < g.len(),
        reachable(g, root as int, y as int),
        distance(g, root as int, y as int) < distance(g, root as int, o[i] as int),
    ensures
        exists|j: int| 0 <= j < i && #[trigger] o[j] == y,
{
    assert(o.contains(y));
    let j = choose|j: int| 0 <= j < o.len() && o[j] == y;
    if j >= i {
        assert(distance(g, root as int, o[i] as int) <= distance(g, root as int, o[j] as int));
    }
}

/// Every node visited after the root was reached along an edge of a node visited before it.
proof fn lemma_visit_known(
    g: Seq<Seq<usize>>,
    root: usize,
    o: Seq<usize>,
    i: int,
    dist: Seq<Option<u32>>,
)
    requires
        breadth_first_shape(g, root, o),
        0 < i < o.len(),
        dist.len() == g.len(),
        forall|j: int, k: int| 0 <= j < i && 0 <= k < g[o[j] as int].len() ==> (#[trigger] dist[g[o[j] as int][k] as int]) is Some,
    ensures
        dist[o[i] as int] is Some,
{
    let xu = o[i];
    let x = xu as int;
    assert(o[0] == root);
    assert(o.contains(xu));
    assert(reachable(g, root as int, x));
    assert(x != root as int);
    let y = lemma_predecessor(g, root as int, x);
    lemma_nearer_first(g, root, o, i, y as usize);
    let j = choose|j: int| 0 <= j < i && #[trigger] o[j] == y as usize;
    let k = choose|k: int| 0 <= k < g[y].len() && g[y][k] == xu;
    assert(g[o[j] as int][k] == xu);
    assert(dist[g[o[j] as int][k] as int] is Some);
}

/// A node first reached from the `i`-th node of the traversal is one step further.
proof fn lemma_first_reach(
    g: Seq<Seq<usize>>,
    root: usize,
    o: Seq<usize>,
    i: int,
    t: int,
    dist: Seq<Option<u32>>,
)
    requires
        breadth_first_shape(g, root, o),
        0 <= i < o.len(),
        step(g, o[i] as int, t),
        dist.len() == g.len(),
        dist[root as int] is Some,
        dist[t] is None,
        forall|j: int, k: int| 0 <= j < i && 0 <= k < g[o[j] as int].len() ==> (#[trigger] dist[g[o[j] as int][k] as int]) is Some,
    ensures
        reachable(g, root as int, t),
        distance(g, root as int, t) == distance(g, root as int, o[i] as int) + 1,
{
    let xu = o[i];
    let x = xu as int;
    assert(o.contains(xu));
    assert(reachable(g, root as int, x));
    lemma_step_distance(g, root as int, x, t);
    if distance(g, root as int, t) <= distance(g, root as int, x) {
        assert(t != root as int);
        let y = lemma_predecessor(g, root as int, t);
        lemma_nearer_first(g, root, o, i, y as usize);
        let j = choose|j: int| 0 <= j < i && #[trigger] o[j] == y as usize;
        let k = choose|k: int| 0 <= k < g[y].len() && g[y][k] == t as usize;
        assert(g[o[j] as int][k] == t as usize);
        assert(dist[g[o[j] as int][k] as int] is Some);
    }
}

/// The breadth-first search from `root` along `order` (the traversal), stopping at the
/// target, at the visit and depth budgets, or when asked.
#[verifier::rlimit(60)]
fn explore(
    g: &Vec<Vec<usize>>,
    sites: &Vec<Vec<usize>>,
    root: usize,
    order: &Vec<usize>,
    target: Option<usize>,
    limits: AnalysisLimits,
    envelope: &mut AnalysisEnvelope,
    control: &AnalysisControl,
) -> (r: (Vec<usize>, Option<usize>, Vec<Option<u32>>, Vec<Option<(usize, usize)>>, bool))
    requires
        closed_graph(adj_view(g@)),
        sites@.len() == g@.len(),
        forall|x: int| 0 <= x < g@.len() ==> (#[trigger] g@[x])@.len() == sites@[x]@.len(),
        root < g@.len(),
        limits.max_depth <= 64,
        breadth_first_shape(adj_view(g@), root, order@),
    ensures
        parents_ok(adj_view(g@), adj_view(sites@), root, r.2@, r.3@),
        parents_first(adj_view(g@), adj_view(sites@), order@, r.3@),
        r.1 matches Some(x) ==> r.2@[x as int] is Some && x < g@.len(),
        r.0@.len() <= order@.len(),
        r.0@ == order@.take(r.0@.len() as int),
        !r.4 ==> {
            &&& explored(adj_view(g@), root, order@, limits, target, r.0@.len() as int, r.1 is Some)
            &&& r.0@ == order@.take(r.0@.len() as int)
            &&& r.1 matches Some(x) ==> x == order@[r.0@.len() - 1]
            &&& (r.1 is None && r.0@.len() < order@.len()) ==> envelope_step(*old(envelope), *final(envelope), seq![(UnknownReason::BudgetExhausted, depth_message())]) && final(envelope).truncated
            &&& !(r.1 is None && r.0@.len() < order@.len()) ==> *final(envelope) == *old(envelope)
            &&& final(envelope).cancelled == old(envelope).cancelled && final(envelope).deadline_reached == old(envelope).deadline_reached
        },
        r.4 ==> envelope_step(*old(envelope), *final(envelope), seq![stop_gap()]) && final(envelope).truncated && stopped_env(*final(envelope)),
{
    let width = g.len();
    let ghost v = adj_view(g@);
    let ghost sv = adj_view(sites@);
    let mut dist: Vec<Option<u32>> = Vec::new();
    let mut prev: Vec<Option<(usize, usize)>> = Vec::new();
    let mut w: usize = 0;
    while w < width
        invariant
            w <= width,
            dist@.len() == w,
            prev@.len() == w,
            forall|x: int| 0 <= x < w ==> (#[trigger] dist@[x]) is None && prev@[x] is None,
        decreases width - w,
    {
        dist.push(None);
        prev.push(None);
        w += 1;
    }
    let ghost d0 = dist@;
    proof {
        assert(d0[root as int] is None && prev@[root as int] is None);
    }
    dist.set(root, Some(0));
    proof {
        assert(order@.contains(root));
        assert(reachable(v, root as int, root as int)) by {
            assert(within(v, root as int, 0).contains(root as int));
        }
        lemma_distance(v, root as int, root as int);
        assert(within(v, root as int, 0).contains(root as int));
        assert(distance(v, root as int, root as int) == 0);
        assert forall|x: int| 0 <= x < v.len() && (#[trigger] dist@[x]) is Some implies reachable(v, root as int, x) && dist@[x]->0 == distance(v, root as int, x) by {
            assert(x == root as int);
        }
        assert forall|x: int| 0 <= x < v.len() && (#[trigger] dist@[x]) is Some && x != root implies parent_ok(v, sv, dist@, x, prev@[x]) by {
            assert(x == root as int);
        }
        assert(parents_ok(v, sv, root, dist@, prev@));
        assert forall|x: int| 0 <= x < prev@.len() && (#[trigger] prev@[x]) is Some implies first_parent(v, sv, order@, x as usize, (prev@[x]->0).0, (prev@[x]->0).1) by {
            assert(d0[x] is None);
        }
    }
    let mut visited: Vec<usize> = Vec::new();
    let mut i: usize = 0;
    while i < order.len()
        invariant
            width == g@.len(),
            v == adj_view(g@),
            sv == adj_view(sites@),
            closed_graph(v),
            sites@.len() == g@.len(),
            forall|x: int| 0 <= x < g@.len() ==> (#[trigger] g@[x])@.len() == sites@[x]@.len(),
            root < width,
            limits.max_depth <= 64,
            breadth_first_shape(v, root, order@),
            i <= order@.len(),
            visited@ == order@.take(i as int),
            parents_ok(v, sv, root, dist@, prev@),
            parents_first(v, sv, order@, prev@),
            forall|x: int| 0 <= x < width && (#[trigger] dist@[x]) is Some ==> dist@[x]->0 <= 65,
            forall|j: int, k: int| 0 <= j < i && 0 <= k < v[order@[j] as int].len() ==> (#[trigger] dist@[v[order@[j] as int][k] as int]) is Some,
            forall|j: int| 0 <= j < i ==> #[trigger] visit_allowed(v, root, order@, limits, j),
            forall|j: int| 0 <= j < i ==> target != Some(#[trigger] order@[j]),
            *envelope == *old(envelope),
        decreases order.len() - i,
    {
        if control.stopped() {
            halt(envelope, control);
            return (visited, None, dist, prev, true);
        }
        let x = order[i];
        proof {
            if i > 0 {
                lemma_visit_known(v, root, order@, i as int, dist@);
            }
        }
        let depth = dist[x].unwrap();
        proof {
            assert(order@.contains(x));
            assert(depth == distance(v, root as int, x as int));
        }
        if visited.len() >= limits.max_visits as usize || depth > limits.max_depth {
            envelope.truncated = true;
            let ghost before = *envelope;
            envelope.partial(
                UnknownReason::BudgetExhausted,
                "Reachability visited-set or depth budget exhausted; no complete negative is available",
            );
            proof {
                let none = Seq::<(UnknownReason, Seq<char>)>::empty();
                lemma_with_gaps_push(coverage_view(old(envelope).coverage), none, UnknownReason::BudgetExhausted, depth_message());
                assert(none.push((UnknownReason::BudgetExhausted, depth_message())) =~= seq![(UnknownReason::BudgetExhausted, depth_message())]);
                assert(!visit_allowed(v, root, order@, limits, i as int));
            }
            return (visited, None, dist, prev, false);
        }
        visited.push(x);
        proof {
            assert(visited@ =~= order@.take(i + 1));
            assert(visit_allowed(v, root, order@, limits, i as int));
        }
        let hit = match target {
            Some(t) => t == x,
            None => false,
        };
        if hit {
            return (visited, Some(x), dist, prev, false);
        }
        let row = &g[x];
        let callsites = &sites[x];
        proof {
            assert(row@ == v[x as int]);
            assert(callsites@ == sv[x as int]);
        }
        let mut k: usize = row.len();
        while k > 0
            invariant
                width == g@.len(),
                v == adj_view(g@),
                sv == adj_view(sites@),
                closed_graph(v),
                breadth_first_shape(v, root, order@),
                i < order@.len(),
                x == order@[i as int],
                row@ == v[x as int],
                callsites@ == sv[x as int],
                row@.len() == callsites@.len(),
                k <= row@.len(),
                root < width,
                depth <= 64,
                dist@[x as int] == Some(depth),
                depth == distance(v, root as int, x as int),
                parents_ok(v, sv, root, dist@, prev@),
                parents_first(v, sv, order@, prev@),
                forall|y: int| 0 <= y < width && (#[trigger] dist@[y]) is Some ==> dist@[y]->0 <= 65,
                forall|j: int, k2: int| 0 <= j < i && 0 <= k2 < v[order@[j] as int].len() ==> (#[trigger] dist@[v[order@[j] as int][k2] as int]) is Some,
                forall|k2: int| k <= k2 < row@.len() ==> (#[trigger] dist@[row@[k2] as int]) is Some,
            decreases k,
        {
            k -= 1;
            let t = row[k];
            proof {
                assert(v[x as int][k as int] == t);
                assert(t < width);
            }
            if dist[t].is_none() {
                proof {
                    assert(step(v, x as int, t as int)) by {
                        assert(v[x as int][k as int] == t);
                    }
                    lemma_first_reach(v, root, order@, i as int, t as int, dist@);
                }
                let ghost d0 = dist@;
                let ghost p0 = prev@;
                dist.set(t, Some(depth + 1));
                prev.set(t, Some((x, callsites[k])));
                proof {
                    assert(t != root);
                    assert forall|y: int| 0 <= y < width && (#[trigger] dist@[y]) is Some implies reachable(v, root as int, y) && dist@[y]->0 == distance(v, root as int, y) by {
                        if y != t {
                            assert(dist@[y] == d0[y]);
                        }
                    }
                    assert forall|y: int|
                        0 <= y < width && (#[trigger] dist@[y]) is Some && y != root implies parent_ok(v, sv, dist@, y, prev@[y]) by {
                        if y == t {
                            assert(v[x as int][k as int] == t);
                            assert(sv[x as int][k as int] == callsites@[k as int]);
                            assert(dist@[x as int] == d0[x as int]);
                        } else {
                            assert(dist@[y] == d0[y]);
                            assert(prev@[y] == p0[y]);
                            assert(parent_ok(v, sv, d0, y, p0[y]));
                            let (z, site) = p0[y]->0;
                            assert(z != t) by {
                                if z == t {
                                    assert(d0[z as int] is Some);
                                }
                            }
                            assert(dist@[z as int] == d0[z as int]);
                        }
                    }
                    assert forall|y: int| 0 <= y < prev@.len() && (#[trigger] prev@[y]) is Some implies first_parent(v, sv, order@, y as usize, (prev@[y]->0).0, (prev@[y]->0).1) by {
                        if y == t {
                            reveal(first_parent);
                            assert(order@[i as int] == x && v[x as int][k as int] == t && sv[x as int][k as int] == callsites@[k as int]);
                            assert forall|j2: int, k2: int| 0 <= j2 < i && 0 <= k2 < v[order@[j2] as int].len() implies #[trigger] v[order@[j2] as int][k2] != t by {
                                assert(d0[v[order@[j2] as int][k2] as int] is Some);
                            }
                            assert forall|k2: int| k < k2 < v[x as int].len() implies #[trigger] v[x as int][k2] != t by {
                                assert(d0[row@[k2] as int] is Some);
                            }
                        } else {
                            assert(prev@[y] == p0[y]);
                        }
                    }
                    assert forall|k2: int| k <= k2 < row@.len() implies (#[trigger] dist@[row@[k2] as int]) is Some by {
                        if row@[k2] != t {
                            assert(dist@[row@[k2] as int] == d0[row@[k2] as int]);
                        }
                    }
                    assert forall|j: int, k2: int| 0 <= j < i && 0 <= k2 < v[order@[j] as int].len() implies (#[trigger] dist@[v[order@[j] as int][k2] as int]) is Some by {
                        if v[order@[j] as int][k2] != t {
                            assert(dist@[v[order@[j] as int][k2] as int] == d0[v[order@[j] as int][k2] as int]);
                        }
                    }
                }
            }
        }
        i += 1;
    }
    proof {
        assert(order@.take(i as int) =~= order@);
    }
    (visited, None, dist, prev, false)
}

pub open spec fn depth_message() -> Seq<char> {
    "Reachability visited-set or depth budget exhausted; no complete negative is available"@
}

/// Whether call site `site` is an edge from `a` to `b`.
pub open spec fn step_via(g: Seq<Seq<usize>>, sites: Seq<Seq<usize>>, a: usize, b: usize, site: usize) -> bool {
    exists|k: int| 0 <= k < g[a as int].len() && #[trigger] g[a as int][k] == b && sites[a as int][k] == site
}

/// Whether `path` is a walk along the call sites `via_sites`.
pub open spec fn walks(g: Seq<Seq<usize>>, sites: Seq<Seq<usize>>, path: Seq<usize>, via_sites: Seq<usize>) -> bool {
    &&& via_sites.len() + 1 == path.len()
    &&& forall|i: int| 0 <= i < via_sites.len() ==> #[trigger] step_via(g, sites, path[i], path[i + 1], via_sites[i])
}

/// The path from `root` to `from` along the recorded parents, and its call sites.
#[verifier::rlimit(40)]
fn trace_back(
    g: Ghost<Seq<Seq<usize>>>,
    sites: Ghost<Seq<Seq<usize>>>,
    dist: &Vec<Option<u32>>,
    prev: &Vec<Option<(usize, usize)>>,
    root: usize,
    from: usize,
    o: Ghost<Seq<usize>>,
) -> (r: (Vec<usize>, Vec<usize>))
    requires
        parents_ok(g@, sites@, root, dist@, prev@),
        parents_first(g@, sites@, o@, prev@),
        from < g@.len(),
        dist@[from as int] is Some,
    ensures
        forall|i: int| 0 <= i < r.1@.len() ==> #[trigger] first_parent(g@, sites@, o@, r.0@[i + 1], r.0@[i], r.1@[i]),
        r.0@.len() == dist@[from as int]->0 + 1,
        r.0@[0] == root,
        r.0@[r.0@.len() - 1] == from,
        walks(g@, sites@, r.0@, r.1@),
        forall|k: int| 0 <= k < r.0@.len() ==> #[trigger] r.0@[k] < g@.len(),
{
    let mut back: Vec<usize> = Vec::new();
    let mut back_sites: Vec<usize> = Vec::new();
    back.push(from);
    let mut cur = from;
    let ghost top = dist@[from as int]->0;
    while prev[cur].is_some()
        invariant
            parents_ok(g@, sites@, root, dist@, prev@),
            cur < g@.len(),
            dist@[cur as int] is Some,
            top == dist@[from as int]->0,
            back@.len() == top - dist@[cur as int]->0 + 1,
            back@[0] == from,
            back@[back@.len() - 1] == cur,
            back_sites@.len() + 1 == back@.len(),
            forall|i: int| 0 <= i < back_sites@.len() ==> #[trigger] step_via(g@, sites@, back@[i + 1], back@[i], back_sites@[i]),
            parents_first(g@, sites@, o@, prev@),
            forall|i: int| 0 <= i < back_sites@.len() ==> #[trigger] first_parent(g@, sites@, o@, back@[i], back@[i + 1], back_sites@[i]),
            forall|k: int| 0 <= k < back@.len() ==> #[trigger] back@[k] < g@.len(),
        decreases dist@[cur as int]->0,
    {
        let (p, site) = prev[cur].unwrap();
        proof {
            assert(cur != root);
            assert(parent_ok(g@, sites@, dist@, cur as int, prev@[cur as int]));
        }
        let ghost b0 = back@;
        let ghost s0 = back_sites@;
        back_sites.push(site);
        back.push(p);
        proof {
            assert forall|i: int| 0 <= i < back_sites@.len() implies #[trigger] step_via(g@, sites@, back@[i + 1], back@[i], back_sites@[i]) by {
                if i < s0.len() {
                    assert(back@[i + 1] == b0[i + 1] && back@[i] == b0[i] && back_sites@[i] == s0[i]);
                } else {
                    assert(back@[i] == cur && back@[i + 1] == p && back_sites@[i] == site);
                }
            }
            assert forall|i: int| 0 <= i < back_sites@.len() implies #[trigger] first_parent(g@, sites@, o@, back@[i], back@[i + 1], back_sites@[i]) by {
                if i < s0.len() {
                    assert(back@[i + 1] == b0[i + 1] && back@[i] == b0[i] && back_sites@[i] == s0[i]);
                } else {
                    assert(back@[i] == cur && back@[i + 1] == p && back_sites@[i] == site);
                    assert(prev@[cur as int] is Some);
                }
            }
        }
        cur = p;
    }
    proof {
        if cur != root {
            assert(parent_ok(g@, sites@, dist@, cur as int, prev@[cur as int]));
        }
    }
    let n = back.len();
    let mut path: Vec<usize> = Vec::new();
    let mut path_sites: Vec<usize> = Vec::new();
    let mut i: usize = 0;
    while i < n
        invariant
            n == back@.len(),
            n >= 1,
            back_sites@.len() + 1 == n,
            forall|k: int| 0 <= k < back@.len() ==> #[trigger] back@[k] < g@.len(),
            i <= n,
            path@.len() == i,
            path_sites@.len() == if i == 0 { 0 } else { i - 1 },
            forall|j: int| 0 <= j < i ==> #[trigger] path@[j] == back@[n - 1 - j],
            forall|j: int| 0 <= j < path_sites@.len() ==> #[trigger] path_sites@[j] == back_sites@[n - 2 - j],
        decreases n - i,
    {
        if i > 0 {
            path_sites.push(back_sites[n - 1 - i]);
        }
        path.push(back[n - 1 - i]);
        i += 1;
    }
    proof {
        assert(cur == root);
        assert forall|k: int| 0 <= k < path@.len() implies #[trigger] path@[k] < g@.len() by {
            assert(path@[k] == back@[n - 1 - k]);
        }
        assert forall|j: int| 0 <= j < path_sites@.len() implies #[trigger] step_via(g@, sites@, path@[j], path@[j + 1], path_sites@[j]) by {
            let b = n - 2 - j;
            assert(step_via(g@, sites@, back@[b + 1], back@[b], back_sites@[b]));
        }
        assert forall|j: int| 0 <= j < path_sites@.len() implies #[trigger] first_parent(g@, sites@, o@, path@[j + 1], path@[j], path_sites@[j]) by {
            let b = n - 2 - j;
            assert(first_parent(g@, sites@, o@, back@[b], back@[b + 1], back_sites@[b]));
        }
    }
    (path, path_sites)
}

/// What a path search concluded.
#[derive(Debug, Clone, Copy, PartialEq, Eq, Structural)]
pub enum PathOutcome {
    Found,
    NotFoundInSelection,
    ReachabilityComplete,
    Unknown,
}

/// One shortest path to the target (when found), the definitions visited in order, and the
/// call sites leaving them that lead out of the selection.
#[derive(Debug, Clone)]
pub struct PathAnalysis {
    pub envelope: AnalysisEnvelope,
    pub outcome: PathOutcome,
    pub path: Vec<String>,
    pub relations: Vec<String>,
    pub reachable: Vec<String>,
    pub unknown_frontier: Vec<UnknownFrontier>,
}

pub open spec fn start_message() -> Seq<char> {
    "start definition is absent from selected graph"@
}

pub open spec fn outside_target_message() -> Seq<char> {
    "Requested target is outside the selected graph; absence cannot establish unreachability"@
}

/// The graph index of the requested target, when it is selected.
pub open spec fn requested_slot(n: Seq<Definition>, sel: Seq<usize>, target: Option<&String>) -> Option<usize> {
    match target {
        Some(t) => match slot_of(n, sel, key(*t)) {
            Some(m) => Some(m as usize),
            None => None,
        },
        None => None,
    }
}

/// Whether a target was requested that is not selected.
pub open spec fn target_outside(n: Seq<Definition>, sel: Seq<usize>, target: Option<&String>) -> bool {
    target is Some && requested_slot(n, sel, target) is None
}

/// The frontier records whose source was visited, in their order.
pub open spec fn reached_frontier(listed: Seq<UnknownFrontier>, reached: Seq<String>) -> Seq<UnknownFrontier>
    decreases listed.len(),
{
    if listed.len() == 0 {
        Seq::empty()
    } else {
        let prior = reached_frontier(listed.drop_last(), reached);
        if exists|m: int| 0 <= m < reached.len() && #[trigger] key(reached[m]) == key(listed.last().source) {
            prior.push(listed.last())
        } else {
            prior
        }
    }
}

/// The relation identities of call sites.
pub open spec fn relation_ids(e: Seq<Relation>, js: Seq<usize>) -> Seq<String> {
    js.map_values(|j: usize| e[j as int].id)
}

/// The outcome a search reports.
pub open spec fn expected_outcome(found: bool, env: AnalysisEnvelope, target: Option<&String>, selected_target: bool) -> PathOutcome {
    if found {
        PathOutcome::Found
    } else if !env.truncated && env.coverage.status == crate::model::Status::Complete && (target is None || selected_target) {
        if target is Some {
            PathOutcome::NotFoundInSelection
        } else {
            PathOutcome::ReachabilityComplete
        }
    } else {
        PathOutcome::Unknown
    }
}

/// Whether `t` is the path search from `start` over the selection, given the retained nodes
/// `sel`, retained call sites `kept` and handling order `order` (each fixed by the selection).
pub open spec fn path_report_from(
    n: Seq<Definition>,
    e: Seq<Relation>,
    coverage: Coverage,
    input_truncated: bool,
    limits: AnalysisLimits,
    start: String,
    target: Option<&String>,
    sel: Seq<usize>,
    kept: Seq<usize>,
    order: Seq<usize>,
    listed: Seq<UnknownFrontier>,
    t: PathAnalysis,
) -> bool {
    let g = targets_after(n, sel, e, order);
    let sv = sites_after(n, sel, e, order);
    let truncated = selection_truncated(n, e, input_truncated, limits, kept);
    let prepared_gaps = (if truncated {
        seq![(UnknownReason::BudgetExhausted, truncation_message())]
    } else {
        Seq::empty()
    }) + configuration_gaps(n, sel) + gaps_after(n, sel, e, order);
    let outside_gap = if target_outside(n, sel, target) {
        seq![(UnknownReason::ExternalBoundary, outside_target_message())]
    } else {
        Seq::empty()
    };
    &&& frontier_listed(e, frontier_after(n, sel, e, order), listed)
    &&& kept_nodes(n, limits.max_nodes as int, sel)
    &&& kept_calls(e, limits.max_edges as int, kept)
    &&& handling_order(e, kept, order)
    &&& t.envelope.algorithm_version@ == "selected-call-graph-bfs-v1"@
    &&& texts(t.envelope.assumptions@) == graph_assumptions()
    &&& !t.envelope.cancelled && !t.envelope.deadline_reached
    &&& t.outcome == expected_outcome(t.path@.len() > 0, t.envelope, target, requested_slot(n, sel, target) is Some)
    &&& match slot_of(n, sel, key(start)) {
        None => {
            &&& truncated
            &&& t.envelope.truncated
            &&& coverage_view(t.envelope.coverage) == with_gaps(coverage_view(coverage), prepared_gaps + outside_gap)
            &&& t.path@.len() == 0 && t.relations@.len() == 0 && t.reachable@.len() == 0 && t.unknown_frontier@.len() == 0
        },
        Some(root) => {
            let o = breadth_first_order(g, root as usize);
            &&& breadth_first_shape(g, root as usize, o)
            &&& exists|m: int, found: bool| #[trigger] explored(g, root as usize, o, limits, requested_slot(n, sel, target), m, found) && {
                let cut = !found && m < o.len();
                &&& t.reachable@ == slot_ids(n, sel, o.take(m))
                &&& t.envelope.truncated == (truncated || cut)
                &&& coverage_view(t.envelope.coverage) == with_gaps(
                    coverage_view(coverage),
                    prepared_gaps + (if cut {
                        seq![(UnknownReason::BudgetExhausted, depth_message())]
                    } else {
                        Seq::empty()
                    }) + outside_gap,
                )
                &&& found ==> exists|ps: Seq<usize>, ss: Seq<usize>|
                    #[trigger] walks(g, sv, ps, ss) && ps[0] == root && ps[ps.len() - 1] == o[m - 1]
                        && ps.len() == distance(g, root as int, o[m - 1] as int) + 1 && t.path@ == slot_ids(n, sel, ps)
                        && (forall|i: int| 0 <= i < ss.len() ==> #[trigger] first_parent(g, sv, o, ps[i + 1], ps[i], ss[i]))
                        && t.relations@ == relation_ids(e, ss)
                &&& !found ==> t.path@.len() == 0 && t.relations@.len() == 0
                &&& t.unknown_frontier@ == reached_frontier(listed, t.reachable@)
            }
        },
    }
}

/// The identities of the call sites `js`.
fn relation_names(edges: &[Relation], js: &Vec<usize>) -> (r: Vec<String>)
    requires
        forall|i: int| 0 <= i < js@.len() ==> #[trigger] js@[i] < edges@.len(),
    ensures
        r@ == relation_ids(edges@, js@),
{
    let mut out: Vec<String> = Vec::new();
    let mut i: usize = 0;
    while i < js.len()
        invariant
            i <= js@.len(),
            forall|i2: int| 0 <= i2 < js@.len() ==> #[trigger] js@[i2] < edges@.len(),
            out@ == relation_ids(edges@, js@.take(i as int)),
        decreases js.len() - i,
    {
        out.push(edges[js[i]].id.clone());
        proof {
            assert(relation_ids(edges@, js@.take(i + 1)) =~= relation_ids(edges@, js@.take(i as int)).push(edges@[js@[i as int] as int].id));
        }
        i += 1;
    }
    proof {
        assert(js@.take(i as int) =~= js@);
    }
    out
}

/// A copy of a frontier record.
fn copy_frontier(f: &UnknownFrontier) -> (r: UnknownFrontier)
    ensures
        r == *f,
{
    let target = match &f.target_definition_id {
        Some(id) => Some(id.clone()),
        None => None,
    };
    UnknownFrontier {
        source: f.source.clone(),
        relation_id: f.relation_id.clone(),
        target_definition_id: target,
        reason: f.reason,
    }
}

proof fn lemma_reached_none(listed: Seq<UnknownFrontier>, reached: Seq<String>)
    requires
        reached.len() == 0,
    ensures
        reached_frontier(listed, reached).len() == 0,
    decreases listed.len(),
{
    if listed.len() > 0 {
        lemma_reached_none(listed.drop_last(), reached);
    }
}

/// The frontier records whose source is among `reached`, in order.
fn keep_reached(listed: &Vec<UnknownFrontier>, reached: &Vec<String>) -> (r: Vec<UnknownFrontier>)
    ensures
        r@ == reached_frontier(listed@, reached@),
{
    let mut out: Vec<UnknownFrontier> = Vec::new();
    let mut i: usize = 0;
    while i < listed.len()
        invariant
            i <= listed@.len(),
            out@ == reached_frontier(listed@.take(i as int), reached@),
        decreases listed.len() - i,
    {
        let f = &listed[i];
        let source = bytes_of(&f.source);
        let mut m: usize = 0;
        let mut hit = false;
        while m < reached.len()
            invariant
                m <= reached@.len(),
                source@ == key(f.source),
                hit <==> exists|m2: int| 0 <= m2 < m && #[trigger] key(reached@[m2]) == key(f.source),
            decreases reached.len() - m,
        {
            let same = bytes_eq(bytes_of(&reached[m]), source);
            proof {
                if same {
                    assert(key(reached@[m as int]) == key(f.source));
                }
                assert((exists|m2: int| 0 <= m2 < m + 1 && #[trigger] key(reached@[m2]) == key(f.source)) <==> ((exists|m2: int| 0 <= m2 < m && #[trigger] key(reached@[m2]) == key(f.source)) || key(reached@[m as int]) == key(f.source)));
            }
            if same {
                hit = true;
            }
            m += 1;
        }
        proof {
            assert(listed@.take(i + 1).drop_last() =~= listed@.take(i as int));
            assert(listed@.take(i + 1).last() == listed@[i as int]);
        }
        if hit {
            out.push(copy_frontier(f));
        }
        i += 1;
    }
    proof {
        assert(listed@.take(i as int) =~= listed@);
    }
    out
}

/// What a finished path search in the selection holds before the response byte budget.
pub open spec fn path_holds(
    input: SelectedGraph,
    start: String,
    target: Option<&String>,
    limits: AnalysisLimits,
    input_bytes: int,
    t: PathAnalysis,
) -> bool {
    &&& t.envelope.algorithm_version@ == "selected-call-graph-bfs-v1"@
    &&& texts(t.envelope.assumptions@) == graph_assumptions()
    &&& stopped_env(t.envelope) ==> t.envelope.truncated && !(t.outcome is NotFoundInSelection)
        && !(t.outcome is ReachabilityComplete)
    &&& !stopped_env(t.envelope) ==> selection_fault(input.nodes@, input.edges@, limits, input_bytes) is None
        && exists|sel: Seq<usize>, kept: Seq<usize>, order: Seq<usize>, listed: Seq<UnknownFrontier>|
        #[trigger] path_report_from(
            input.nodes@,
            input.edges@,
            *input.coverage,
            input.input_truncated,
            limits,
            start,
            target,
            sel,
            kept,
            order,
            listed,
            t,
        )
}

/// Searches the selection up to a finished report, before the response byte budget.
#[verifier::rlimit(80)]
#[verifier::spinoff_prover]
fn path_report(
    input: &SelectedGraph,
    start: &String,
    target: Option<&String>,
    limits: AnalysisLimits,
    control: &AnalysisControl,
    input_bytes: usize,
) -> (r: Result<PathAnalysis, AnalysisError>)
    ensures
        early_refusal(input.nodes@, input.edges@, limits, input_bytes as int) ==> r is Err,
        r matches Err(err) ==> refusal_holds(input.nodes@, input.edges@, limits, input_bytes as int, err) || (
        selection_fault(input.nodes@, input.edges@, limits, input_bytes as int) is None && refusal_is(
            err,
            Some(start_message()),
        )),
        selection_fault(input.nodes@, input.edges@, limits, input_bytes as int) is None ==> (r is Ok || (r is Err
            && refusal_is(r->Err_0, Some(start_message())))),
        r matches Ok(t) ==> path_holds(*input, *start, target, limits, input_bytes as int, t),
{
    let pr = match prepare(input, limits, control, "selected-call-graph-bfs-v1", input_bytes) {
        Ok(pr) => pr,
        Err(e) => {
            return Err(e);
        },
    };
    let nodes = input.nodes;
    let edges = input.edges;
    let Prepared { sel, handled, unknown, mut envelope, halted, kept, order } = pr;
    let ghost prepared_env = envelope;
    let ghost g = adj_view(handled.targets@);
    let ghost sv = adj_view(handled.sites@);
    proof {
        assert(fits_petgraph(g));
        assert(closed_graph(g)) by {
            assert forall|a: int, j: int| 0 <= a < g.len() && 0 <= j < g[a].len() implies #[trigger] g[a][j] < g.len() by {}
        }
    }
    let wanted = match target {
        Some(t) => find_slot(nodes, &sel, bytes_of(t)),
        None => None,
    };
    let mut outcome = PathOutcome::Unknown;
    let mut path: Vec<String> = Vec::new();
    let mut relations: Vec<String> = Vec::new();
    let mut visited: Vec<usize> = Vec::new();
    let mut stopped = halted;
    let ghost mut walked: Seq<usize> = Seq::empty();
    let ghost mut walked_sites: Seq<usize> = Seq::empty();
    let ghost mut traversal: Seq<usize> = Seq::empty();
    let ghost mut searched = false;
    let ghost mut found_any = false;
    let ghost mut root_ghost: usize = 0;
    let ghost mut cut = false;
    let ghost mut after_search = envelope;
    match find_slot(nodes, &sel, bytes_of(start)) {
        Some(root) => {
            let o = breadth_first(&handled.targets, root);
            proof {
                assert(breadth_first_shape(g, root, o@));
                traversal = o@;
                searched = true;
            }
            proof {
                assert(handled.sites@.len() == handled.targets@.len());
                assert forall|x: int| 0 <= x < handled.targets@.len() implies (#[trigger] handled.targets@[x])@.len() == handled.sites@[x]@.len() by {
                    assert(g[x] == handled.targets@[x]@);
                    assert(sv[x] == handled.sites@[x]@);
                }
                assert(limits.max_depth <= 64);
            }
            let (seen, found, dist, prev, stop) = explore(&handled.targets, &handled.sites, root, &o, wanted, limits, &mut envelope, control);
            proof {
                after_search = envelope;
                found_any = found is Some;
                root_ghost = root;
                cut = found is None && seen@.len() < o@.len();
                if stop {
                    assert(stopped_env(envelope));
                } else if halted {
                    assert(stopped_env(prepared_env));
                    assert(stopped_env(envelope));
                }
            }
            visited = seen;
            stopped = stopped || stop;
            if found.is_none() && !envelope.truncated && envelope.coverage.status == crate::model::Status::Complete
                && (target.is_none() || wanted.is_some()) {
                outcome = if target.is_some() {
                    PathOutcome::NotFoundInSelection
                } else {
                    PathOutcome::ReachabilityComplete
                };
            }
            match found {
                Some(x) => {
                    outcome = PathOutcome::Found;
                    let (ps, ss) = trace_back(Ghost(g), Ghost(sv), &dist, &prev, root, x, Ghost(o@));
                    proof {
                        assert forall|k: int| 0 <= k < ps@.len() implies #[trigger] ps@[k] < sel@.len() by {
                        }
                        assert forall|i: int| 0 <= i < ss@.len() implies #[trigger] ss@[i] < edges@.len() by {
                            assert(step_via(g, sv, ps@[i], ps@[i + 1], ss@[i]));
                            let k = choose|k: int| 0 <= k < g[ps@[i] as int].len() && #[trigger] g[ps@[i] as int][k] == ps@[i + 1] && sv[ps@[i] as int][k] == ss@[i];
                        }
                        walked = ps@;
                        walked_sites = ss@;
                        assert(dist@[x as int]->0 == distance(g, root as int, x as int));
                    }
                    path = slot_names(nodes, &sel, &ps);
                    relations = relation_names(edges, &ss);
                },
                None => {},
            }
        },
        None => {
            if !envelope.truncated {
                return Err(invalid("start definition is absent from selected graph"));
            }
        },
    }
    let ghost before_target = envelope;
    let outside = target.is_some() && wanted.is_none();
    if outside {
        envelope.partial(
            UnknownReason::ExternalBoundary,
            "Requested target is outside the selected graph; absence cannot establish unreachability",
        );
    }
    proof {
        assert forall|k: int| 0 <= k < visited@.len() implies #[trigger] visited@[k] < sel@.len() by {
            if searched {
                assert(visited@[k] == traversal[k]);
            }
        }
    }
    let reachable = slot_names(nodes, &sel, &visited);
    let unknown_frontier = keep_reached(&unknown, &reachable);
    let report = PathAnalysis { envelope, outcome, path, relations, reachable, unknown_frontier };
    proof {
        let outside_gap = if outside {
            seq![(UnknownReason::ExternalBoundary, outside_target_message())]
        } else {
            Seq::<(UnknownReason, Seq<char>)>::empty()
        };
        if outside {
            let none = Seq::<(UnknownReason, Seq<char>)>::empty();
            lemma_with_gaps_push(coverage_view(before_target.coverage), none, UnknownReason::ExternalBoundary, outside_target_message());
            assert(none.push((UnknownReason::ExternalBoundary, outside_target_message())) =~= outside_gap);
        }
        assert(coverage_view(report.envelope.coverage) == with_gaps(coverage_view(before_target.coverage), outside_gap));
        if stopped {
            if !searched {
                assert(halted);
                assert(stopped_env(prepared_env));
            }
            assert(stopped_env(before_target));
        }
        if !stopped_env(report.envelope) {
            assert(!halted && !stopped);
            let n = nodes@;
            let e = edges@;
            let trunc = selection_truncated(n, e, input.input_truncated, limits, kept@);
            let prepared_gaps = (if trunc {
                seq![(UnknownReason::BudgetExhausted, truncation_message())]
            } else {
                Seq::<(UnknownReason, Seq<char>)>::empty()
            }) + configuration_gaps(n, sel@) + gaps_after(n, sel@, e, order@);
            assert(coverage_view(prepared_env.coverage) == with_gaps(coverage_view(*input.coverage), prepared_gaps));
            assert(wanted == requested_slot(n, sel@, target));
            if searched {
                let o = traversal;
                let m = visited@.len() as int;
                let cut_gap = if cut {
                    seq![(UnknownReason::BudgetExhausted, depth_message())]
                } else {
                    Seq::<(UnknownReason, Seq<char>)>::empty()
                };
                if !cut {
                    assert(after_search == prepared_env);
                }
                assert(coverage_view(after_search.coverage) == with_gaps(coverage_view(prepared_env.coverage), cut_gap));
                crate::model::lemma_with_gaps_concat(coverage_view(*input.coverage), prepared_gaps, cut_gap);
                crate::model::lemma_with_gaps_concat(coverage_view(*input.coverage), prepared_gaps + cut_gap, outside_gap);
                let r0 = slot_of(n, sel@, key(*start))->0;
                assert(r0 == root_ghost as int);
                assert(explored(g, r0 as usize, o, limits, requested_slot(n, sel@, target), m, found_any));
                if found_any {
                    assert(walks(g, sv, walked, walked_sites));
                }
                assert(path_report_from(n, e, *input.coverage, input.input_truncated, limits, *start, target, sel@, kept@, order@, unknown@, report));
            } else {
                lemma_reached_none(unknown@, reachable@);
                crate::model::lemma_with_gaps_concat(coverage_view(*input.coverage), prepared_gaps, outside_gap);
                assert(path_report_from(n, e, *input.coverage, input.input_truncated, limits, *start, target, sel@, kept@, order@, unknown@, report));
            }
        }
    }
    Ok(report)
}

/// A search that no budget cut short finds its (selected) target exactly when the target
/// is reachable from the start along selected calls.
pub proof fn law_found_exactly_when_reachable(
    n: Seq<Definition>,
    e: Seq<Relation>,
    coverage: Coverage,
    input_truncated: bool,
    limits: AnalysisLimits,
    start: String,
    target: &String,
    sel: Seq<usize>,
    kept: Seq<usize>,
    order: Seq<usize>,
    listed: Seq<UnknownFrontier>,
    t: PathAnalysis,
    root: int,
    goal: int,
)
    requires
        path_report_from(n, e, coverage, input_truncated, limits, start, Some(target), sel, kept, order, listed, t),
        slot_of(n, sel, key(start)) == Some(root),
        slot_of(n, sel, key(*target)) == Some(goal),
        !t.envelope.truncated,
    ensures
        t.outcome == PathOutcome::Found <==> reachable(targets_after(n, sel, e, order), root, goal),
{
    let g = targets_after(n, sel, e, order);
    let o = breadth_first_order(g, root as usize);
    let (m, found) = choose|m: int, found: bool| #[trigger] explored(g, root as usize, o, limits, requested_slot(n, sel, Some(target)), m, found)
        && t.reachable@ == slot_ids(n, sel, o.take(m)) && t.envelope.truncated == (selection_truncated(n, e, input_truncated, limits, kept) || (!found && m < o.len()))
        && (found ==> exists|ps: Seq<usize>, ss: Seq<usize>| #[trigger] walks(g, sites_after(n, sel, e, order), ps, ss) && ps[0] == root && ps[ps.len() - 1] == o[m - 1]
            && ps.len() == distance(g, root as int, o[m - 1] as int) + 1 && t.path@ == slot_ids(n, sel, ps) && t.relations@ == relation_ids(e, ss))
        && (!found ==> t.path@.len() == 0 && t.relations@.len() == 0)
        && t.unknown_frontier@ == reached_frontier(listed, t.reachable@);
    let want = requested_slot(n, sel, Some(target));
    assert(want == Some(goal as usize));
    assert(0 <= goal < sel.len());
    lemma_after_widths(n, sel, e, order);
    if found {
        assert(t.path@.len() > 0) by {
            let (ps, ss) = choose|ps: Seq<usize>, ss: Seq<usize>| #[trigger] walks(g, sites_after(n, sel, e, order), ps, ss) && ps[0] == root && ps[ps.len() - 1] == o[m - 1]
                && ps.len() == distance(g, root as int, o[m - 1] as int) + 1 && t.path@ == slot_ids(n, sel, ps) && t.relations@ == relation_ids(e, ss);
        }
        assert(o[m - 1] == goal as usize);
        assert(o.contains(goal as usize));
    } else {
        assert(m == o.len());
        if reachable(g, root, goal) {
            assert(o.contains(goal as usize));
            let i = choose|i: int| 0 <= i < o.len() && o[i] == goal as usize;
            assert(want != Some(o[i]));
        }
    }
}

proof fn lemma_within_chain(adj: Seq<Seq<usize>>, a: int, b: int, c: int, k1: nat, k2: nat)
    requires
        within(adj, a, k1).contains(b),
        within(adj, b, k2).contains(c),
    ensures
        within(adj, a, k1 + k2).contains(c),
    decreases k2,
{
    if k2 > 0 {
        let prior = within(adj, b, (k2 - 1) as nat);
        if prior.contains(c) {
            lemma_within_chain(adj, a, b, c, k1, (k2 - 1) as nat);
            lemma_within_grows(adj, a, (k1 + k2 - 1) as nat, k1 + k2, c);
        } else {
            let p = choose|p: int| prior.contains(p) && step(adj, p, c);
            lemma_within_chain(adj, a, b, p, k1, (k2 - 1) as nat);
        }
    }
}

proof fn lemma_reach_chain(adj: Seq<Seq<usize>>, a: int, b: int, c: int)
    requires
        reachable(adj, a, b),
        reachable(adj, b, c),
    ensures
        reachable(adj, a, c),
{
    let k1 = choose|k: nat| #[trigger] within(adj, a, k).contains(b);
    let k2 = choose|k: nat| #[trigger] within(adj, b, k).contains(c);
    lemma_within_chain(adj, a, b, c, k1, k2);
}

/// Two members of reported components lie in the same component exactly when each reaches
/// the other along selected calls.
pub proof fn law_components_follow_mutual_reachability(
    n: Seq<Definition>,
    e: Seq<Relation>,
    coverage: Coverage,
    input_truncated: bool,
    limits: AnalysisLimits,
    sel: Seq<usize>,
    kept: Seq<usize>,
    order: Seq<usize>,
    comps: Seq<Seq<usize>>,
    t: GraphAnalysis,
    c1: int,
    k1: int,
    c2: int,
    k2: int,
)
    requires
        graph_report_from(n, e, coverage, input_truncated, limits, sel, kept, order, comps, t),
        0 <= c1 < comps.len(),
        0 <= k1 < comps[c1].len(),
        0 <= c2 < comps.len(),
        0 <= k2 < comps[c2].len(),
    ensures
        t.components@[c1].members@[k1] == n[sel[comps[c1][k1] as int] as int].id,
        t.components@[c2].members@[k2] == n[sel[comps[c2][k2] as int] as int].id,
        c1 == c2 <==> mutual(targets_after(n, sel, e, order), comps[c1][k1] as int, comps[c2][k2] as int),
{
    let g = targets_after(n, sel, e, order);
    let x = comps[c1][k1];
    let y = comps[c2][k2];
    let f1 = comps[c1][0] as int;
    let f2 = comps[c2][0] as int;
    assert(component_matches(n, sel, g, comps[c1], t.components@[c1]));
    assert(component_matches(n, sel, g, comps[c2], t.components@[c2]));
    lemma_after_widths(n, sel, e, order);
    let xi = x as int;
    let yi = y as int;
    assert(xi < g.len() && yi < g.len());
    assert(comps[c1].contains(xi as usize));
    assert(comps[c2].contains(yi as usize));
    assert(mutual(g, f1, xi));
    assert(mutual(g, f2, yi));
    if c1 == c2 {
        lemma_reach_chain(g, x as int, f1, y as int);
        lemma_reach_chain(g, y as int, f1, x as int);
    } else if mutual(g, x as int, y as int) {
        lemma_reach_chain(g, f1, x as int, y as int);
        lemma_reach_chain(g, y as int, x as int, f1);
        assert(mutual(g, f1, yi));
        assert(comps[c1].contains(yi as usize));
    }
}

/// Finds one shortest outgoing call path from `start` to `target` over the selected graph,
/// or explores what `start` reaches when no target is given, breadth first and within the
/// visit and depth budgets. A negative answer is reported only for a complete, untruncated
/// selection. Among several shortest paths the one through the earliest reached nodes is
/// reported, and among parallel call sites the one with the least target and then relation
/// identity. `input_bytes` is the size of the serialized selection and `response_size`
/// measures the serialized size of a report, as the caller owns serialization; a report
/// over `max_response_bytes` exhausts the budget. Stops early, and says so, when the
/// control asks.
pub fn find_path<F: Fn(&PathAnalysis) -> usize>(
    input: &SelectedGraph,
    start: &String,
    target: Option<&String>,
    limits: AnalysisLimits,
    control: &AnalysisControl,
    input_bytes: usize,
    response_size: F,
) -> (r: Result<PathAnalysis, AnalysisError>)
    requires
        forall|t: PathAnalysis| #[trigger] response_size.requires((&t,)),
    ensures
        early_refusal(input.nodes@, input.edges@, limits, input_bytes as int) ==> r is Err,
        r matches Err(err) ==> refusal_holds(input.nodes@, input.edges@, limits, input_bytes as int, err) || (
        selection_fault(input.nodes@, input.edges@, limits, input_bytes as int) is None && refusal_is(
            err,
            Some(start_message()),
        )) || (err is BudgetExhausted && exists|full: PathAnalysis, n: usize|
            path_holds(*input, *start, target, limits, input_bytes as int, full) && #[trigger] response_size.ensures((&full,), n)
                && n > limits.max_response_bytes),
        selection_fault(input.nodes@, input.edges@, limits, input_bytes as int) is None ==> (r is Ok || (r is Err
            && (refusal_is(r->Err_0, Some(start_message())) || r->Err_0 is BudgetExhausted))),
        r matches Ok(t) ==> path_holds(*input, *start, target, limits, input_bytes as int, t) && exists|n: usize|
            #[trigger] response_size.ensures((&t,), n) && n <= limits.max_response_bytes,
{
    let report = match path_report(input, start, target, limits, control, input_bytes) {
        Ok(t) => t,
        Err(e) => {
            return Err(e);
        },
    };
    if response_size(&report) > limits.max_response_bytes as usize {
        return Err(AnalysisError::BudgetExhausted);
    }
    Ok(report)
}


/// Whether metrics record `m` carries definition `d`'s identity, its source counts as
/// declared, and declares it public exactly when its visibility is the text `pub`.
pub open spec fn metrics_describe(m: DefinitionMetrics, d: Definition) -> bool {
    &&& m.definition_id == d.id
    &&& (m.declared_public <==> d.visibility@ == "pub"@)
    &&& m.source_lines == d.metrics.lines
    &&& m.source_branches == d.metrics.branches
    &&& m.source_returns == d.metrics.returns
    &&& m.source_awaits == d.metrics.awaits
    &&& m.source_unsafe_blocks == d.metrics.unsafe_blocks
}

/// A finished analysis describes selected definitions only, each as declared: every metrics
/// record belongs to a definition of the selection, copies its source counts, and declares
/// it public exactly when its visibility is the text `pub` (`pub(crate)`, `pub(super)` or
/// any other visibility is not declared public).
pub proof fn law_declared_public_is_exactly_pub(
    input: SelectedGraph,
    limits: AnalysisLimits,
    input_bytes: int,
    t: GraphAnalysis,
)
    requires
        graph_holds(input, limits, input_bytes, t),
        !stopped_env(t.envelope),
    ensures
        forall|s: int|
            0 <= s < t.metrics@.len() ==> exists|k: int|
                0 <= k < input.nodes@.len() && metrics_describe(#[trigger] t.metrics@[s], input.nodes@[k]),
{
    let n = input.nodes@;
    let (sel, kept, order, comps) = choose|sel: Seq<usize>, kept: Seq<usize>, order: Seq<usize>, comps: Seq<Seq<usize>>|
        #[trigger] graph_report_from(n, input.edges@, *input.coverage, input.input_truncated, limits, sel, kept, order, comps, t);
    assert forall|s: int| 0 <= s < t.metrics@.len() implies exists|k: int|
        0 <= k < n.len() && metrics_describe(#[trigger] t.metrics@[s], n[k]) by {
        let k = sel[s] as int;
        assert(k < n.len());
        assert(t.metrics@[s] == expected_metrics(n, sel, targets_after(n, sel, input.edges@, order), leaving_after(n, sel, input.edges@, order), s));
        assert(metrics_describe(t.metrics@[s], n[k]));
    }
}

} // verus!
