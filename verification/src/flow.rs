//! The meaning of whole-local reaching definitions: program points, what each statement
//! and terminator does to a local, runtime paths through a body, and the values a local
//! holds at the end of a path.
use crate::compiler::{
    CompilerBlock, CompilerBody, CompilerEdgeKind, CompilerLocalEffects, CompilerTerminator,
    CompilerUnknownEffect,
};
use crate::complexity::at;
use vstd::prelude::*;

verus! {

/// A program point of a body.
#[derive(Debug, Clone, Copy, PartialEq, Eq, Structural, PartialOrd, Ord)]
pub enum MirPoint {
    Entry,
    Statement { block: u32, index: u32 },
    Terminator { block: u32 },
    NormalReturn { block: u32, target: u32 },
}

/// An assignment of a whole local at a program point.
#[derive(Debug, Clone, Copy, PartialEq, Eq, Structural, PartialOrd, Ord)]
pub struct LocalDefinition {
    pub local: u32,
    pub point: MirPoint,
}

// ---------------------------------------------------------------------------
// Order
// ---------------------------------------------------------------------------

/// The sort key of a point: variant first, then its fields in declaration order.
pub open spec fn point_key(p: MirPoint) -> (int, int, int) {
    match p {
        MirPoint::Entry => (0, 0, 0),
        MirPoint::Statement { block, index } => (1, block as int, index as int),
        MirPoint::Terminator { block } => (2, block as int, 0),
        MirPoint::NormalReturn { block, target } => (3, block as int, target as int),
    }
}

/// Strict lexicographic order on integer triples.
pub open spec fn triple_less(a: (int, int, int), b: (int, int, int)) -> bool {
    a.0 < b.0 || (a.0 == b.0 && (a.1 < b.1 || (a.1 == b.1 && a.2 < b.2)))
}

/// The order of points.
pub open spec fn point_less(a: MirPoint, b: MirPoint) -> bool {
    triple_less(point_key(a), point_key(b))
}

/// The order of definitions: by local, then by point.
pub open spec fn definition_less(a: LocalDefinition, b: LocalDefinition) -> bool {
    a.local < b.local || (a.local == b.local && point_less(a.point, b.point))
}

/// Different points have different keys.
pub proof fn lemma_point_key_injective(a: MirPoint, b: MirPoint)
    ensures
        point_key(a) == point_key(b) ==> a == b,
{
}

/// Compares two points.
pub fn point_lt(a: MirPoint, b: MirPoint) -> (r: bool)
    ensures
        r == point_less(a, b),
{
    let ka: (u8, u32, u32) = match a {
        MirPoint::Entry => (0, 0, 0),
        MirPoint::Statement { block, index } => (1, block, index),
        MirPoint::Terminator { block } => (2, block, 0),
        MirPoint::NormalReturn { block, target } => (3, block, target),
    };
    let kb: (u8, u32, u32) = match b {
        MirPoint::Entry => (0, 0, 0),
        MirPoint::Statement { block, index } => (1, block, index),
        MirPoint::Terminator { block } => (2, block, 0),
        MirPoint::NormalReturn { block, target } => (3, block, target),
    };
    ka.0 < kb.0 || (ka.0 == kb.0 && (ka.1 < kb.1 || (ka.1 == kb.1 && ka.2 < kb.2)))
}

/// Compares two definitions.
pub fn definition_lt(a: LocalDefinition, b: LocalDefinition) -> (r: bool)
    ensures
        r == definition_less(a, b),
{
    a.local < b.local || (a.local == b.local && point_lt(a.point, b.point))
}

// ---------------------------------------------------------------------------
// Unknown effects
// ---------------------------------------------------------------------------

/// The number of kinds of unknown memory effect.
pub open spec fn effect_kinds() -> int {
    10
}

/// The position of an unknown effect in the order of its declaration.
pub open spec fn effect_rank(e: CompilerUnknownEffect) -> int {
    match e {
        CompilerUnknownEffect::Call => 0,
        CompilerUnknownEffect::IndirectCall => 1,
        CompilerUnknownEffect::Intrinsic => 2,
        CompilerUnknownEffect::Drop => 3,
        CompilerUnknownEffect::InlineAssembly => 4,
        CompilerUnknownEffect::PointerAliasing => 5,
        CompilerUnknownEffect::BorrowAliasing => 6,
        CompilerUnknownEffect::PartialWrite => 7,
        CompilerUnknownEffect::Retag => 8,
        CompilerUnknownEffect::ExternalState => 9,
    }
}

/// The effect of a rank.
pub open spec fn effect_at(k: int) -> CompilerUnknownEffect {
    if k == 0 {
        CompilerUnknownEffect::Call
    } else if k == 1 {
        CompilerUnknownEffect::IndirectCall
    } else if k == 2 {
        CompilerUnknownEffect::Intrinsic
    } else if k == 3 {
        CompilerUnknownEffect::Drop
    } else if k == 4 {
        CompilerUnknownEffect::InlineAssembly
    } else if k == 5 {
        CompilerUnknownEffect::PointerAliasing
    } else if k == 6 {
        CompilerUnknownEffect::BorrowAliasing
    } else if k == 7 {
        CompilerUnknownEffect::PartialWrite
    } else if k == 8 {
        CompilerUnknownEffect::Retag
    } else {
        CompilerUnknownEffect::ExternalState
    }
}

pub proof fn lemma_effect_rank(e: CompilerUnknownEffect)
    ensures
        0 <= effect_rank(e) < effect_kinds(),
        effect_at(effect_rank(e)) == e,
{
}

/// The rank of an effect.
pub fn rank_of_effect(e: CompilerUnknownEffect) -> (r: usize)
    ensures
        r == effect_rank(e),
{
    match e {
        CompilerUnknownEffect::Call => 0,
        CompilerUnknownEffect::IndirectCall => 1,
        CompilerUnknownEffect::Intrinsic => 2,
        CompilerUnknownEffect::Drop => 3,
        CompilerUnknownEffect::InlineAssembly => 4,
        CompilerUnknownEffect::PointerAliasing => 5,
        CompilerUnknownEffect::BorrowAliasing => 6,
        CompilerUnknownEffect::PartialWrite => 7,
        CompilerUnknownEffect::Retag => 8,
        CompilerUnknownEffect::ExternalState => 9,
    }
}

/// The effect of a rank below the number of kinds.
pub fn effect_of_rank(k: usize) -> (r: CompilerUnknownEffect)
    requires
        k < effect_kinds(),
    ensures
        r == effect_at(k as int),
        effect_rank(r) == k,
{
    if k == 0 {
        CompilerUnknownEffect::Call
    } else if k == 1 {
        CompilerUnknownEffect::IndirectCall
    } else if k == 2 {
        CompilerUnknownEffect::Intrinsic
    } else if k == 3 {
        CompilerUnknownEffect::Drop
    } else if k == 4 {
        CompilerUnknownEffect::InlineAssembly
    } else if k == 5 {
        CompilerUnknownEffect::PointerAliasing
    } else if k == 6 {
        CompilerUnknownEffect::BorrowAliasing
    } else if k == 7 {
        CompilerUnknownEffect::PartialWrite
    } else if k == 8 {
        CompilerUnknownEffect::Retag
    } else {
        CompilerUnknownEffect::ExternalState
    }
}

// ---------------------------------------------------------------------------
// What statements and terminators do
// ---------------------------------------------------------------------------

/// Whether a terminator suspends the body (a `yield`, or an edge that resumes or drops a
/// coroutine): it then also touches state outside the body.
pub open spec fn suspends(t: CompilerTerminator) -> bool {
    t.kind@ == "yield"@ || exists|j: int|
        0 <= j < t.successors@.len() && ((#[trigger] t.successors@[j]).kind
            == CompilerEdgeKind::Resume || t.successors@[j].kind == CompilerEdgeKind::CoroutineDrop)
}

/// The unknown effects of a terminator, with the external-state effect added once when it
/// suspends.
pub open spec fn terminator_unknowns(t: CompilerTerminator) -> Seq<CompilerUnknownEffect> {
    let raw = t.locals.unknown_effects@;
    if suspends(t) && !raw.contains(CompilerUnknownEffect::ExternalState) {
        raw.push(CompilerUnknownEffect::ExternalState)
    } else {
        raw
    }
}

/// The number of effect groups of a block: its statements, then its terminator.
pub open spec fn group_count(blk: CompilerBlock) -> int {
    blk.statements@.len() as int + 1
}

/// The local effects of group `k`.
pub open spec fn group_effects(blk: CompilerBlock, k: int) -> CompilerLocalEffects {
    if k < blk.statements@.len() {
        blk.statements@[k].locals
    } else {
        blk.terminator.locals
    }
}

/// The program point of group `k`.
pub open spec fn group_point(blk: CompilerBlock, k: int) -> MirPoint {
    if k < blk.statements@.len() {
        MirPoint::Statement { block: blk.index, index: blk.statements@[k].index }
    } else {
        MirPoint::Terminator { block: blk.index }
    }
}

/// The unknown effects of group `k`.
pub open spec fn group_unknowns(blk: CompilerBlock, k: int) -> Seq<CompilerUnknownEffect> {
    if k < blk.statements@.len() {
        blk.statements@[k].locals.unknown_effects@
    } else {
        terminator_unknowns(blk.terminator)
    }
}

/// Whether the effects end the tracked value of `l`: a move, or a storage event.
pub open spec fn killed(e: CompilerLocalEffects, l: u32) -> bool {
    e.moves@.contains(l) || e.storage_live@.contains(l) || e.storage_dead@.contains(l)
}

/// What group `k` does to local `l`: `None` leaves it, `Some(v)` makes its value `v`
/// (`Some(point)` for an assignment, `None` for no tracked value).
pub open spec fn group_write(blk: CompilerBlock, k: int, l: u32) -> Option<Option<MirPoint>> {
    let e = group_effects(blk, k);
    if e.defs@.contains(l) {
        Some(Some(group_point(blk, k)))
    } else if killed(e, l) {
        Some(None)
    } else {
        None
    }
}

/// The last write to `l` among the first `k` groups.
pub open spec fn writes_before(blk: CompilerBlock, k: int, l: u32) -> Option<Option<MirPoint>>
    decreases k,
{
    if k <= 0 {
        None
    } else {
        match group_write(blk, k - 1, l) {
            Some(v) => Some(v),
            None => writes_before(blk, k - 1, l),
        }
    }
}

/// The unknown effects among the first `k` groups.
pub open spec fn unknowns_before(blk: CompilerBlock, k: int) -> Set<CompilerUnknownEffect>
    decreases k,
{
    if k <= 0 {
        Set::empty()
    } else {
        unknowns_before(blk, k - 1) + group_unknowns(blk, k - 1).to_set()
    }
}

/// What leaving a block along successor `j` does to `l`: a normal return assigns the
/// call's destination locals; otherwise the last write of the block stands.
pub open spec fn edge_write(blk: CompilerBlock, j: int, l: u32) -> Option<Option<MirPoint>> {
    let e = blk.terminator.successors@[j];
    if e.kind == CompilerEdgeKind::Normal && blk.terminator.normal_return_defs@.contains(l) {
        Some(Some(MirPoint::NormalReturn { block: blk.index, target: e.target }))
    } else {
        writes_before(blk, group_count(blk), l)
    }
}

// ---------------------------------------------------------------------------
// Paths
// ---------------------------------------------------------------------------

/// The position of the block that successor `j` of the block at position `q` enters.
pub open spec fn step_target(b: Seq<CompilerBlock>, q: int, j: int) -> int {
    at(b, b[q].terminator.successors@[j].target)
}

/// The position of the block at which a path of `(block position, successor)` steps ends;
/// the empty path ends at the entry block.
pub open spec fn path_end(b: Seq<CompilerBlock>, path: Seq<(int, int)>) -> int {
    if path.len() == 0 {
        at(b, 0)
    } else {
        step_target(b, path.last().0, path.last().1)
    }
}

/// Whether `(q, j)` is a runtime step out of the block at position `q`.
pub open spec fn runtime_step(b: Seq<CompilerBlock>, q: int, j: int) -> bool {
    &&& 0 <= q < b.len()
    &&& 0 <= j < b[q].terminator.successors@.len()
    &&& b[q].terminator.successors@[j].kind != CompilerEdgeKind::Imaginary
}

/// Whether a path starts at the entry block and follows runtime steps.
pub open spec fn path_ok(b: Seq<CompilerBlock>, path: Seq<(int, int)>) -> bool
    decreases path.len(),
{
    if path.len() == 0 {
        true
    } else {
        &&& path_ok(b, path.drop_last())
        &&& path.last().0 == path_end(b, path.drop_last())
        &&& runtime_step(b, path.last().0, path.last().1)
    }
}

/// Whether a runtime path ends at the block at position `p`.
pub open spec fn arrives(b: Seq<CompilerBlock>, path: Seq<(int, int)>, p: int) -> bool {
    path_ok(b, path) && path_end(b, path) == p
}

/// The value of local `l` on entry to the block at which a path ends: the point of the
/// assignment that last defined it, or `None` when no tracked assignment holds.
pub open spec fn value_along(body: CompilerBody, path: Seq<(int, int)>, l: u32) -> Option<MirPoint>
    decreases path.len(),
{
    if path.len() == 0 {
        if 1 <= l <= body.argument_count {
            Some(MirPoint::Entry)
        } else {
            None
        }
    } else {
        match edge_write(body.blocks@[path.last().0], path.last().1, l) {
            Some(v) => v,
            None => value_along(body, path.drop_last(), l),
        }
    }
}

/// The unknown effects met along a path, on entry to its last block.
pub open spec fn unknowns_along(body: CompilerBody, path: Seq<(int, int)>) -> Set<
    CompilerUnknownEffect,
>
    decreases path.len(),
{
    if path.len() == 0 {
        Set::empty()
    } else {
        let q = path.last().0;
        unknowns_along(body, path.drop_last()) + unknowns_before(
            body.blocks@[q],
            group_count(body.blocks@[q]),
        )
    }
}

/// The value of `l` just before group `k` of the block at which a path ends.
pub open spec fn value_at(body: CompilerBody, path: Seq<(int, int)>, k: int, l: u32) -> Option<
    MirPoint,
> {
    match writes_before(body.blocks@[path_end(body.blocks@, path)], k, l) {
        Some(v) => v,
        None => value_along(body, path, l),
    }
}

/// The unknown effects met before group `k` of the block at which a path ends.
pub open spec fn unknowns_at(body: CompilerBody, path: Seq<(int, int)>, k: int) -> Set<
    CompilerUnknownEffect,
> {
    unknowns_along(body, path) + unknowns_before(body.blocks@[path_end(body.blocks@, path)], k)
}

/// Whether the block at position `p` lies on some runtime path from the entry block.
pub open spec fn reached(body: CompilerBody, p: int) -> bool {
    exists|path: Seq<(int, int)>| #[trigger] arrives(body.blocks@, path, p)
}

/// Whether on some runtime path the assignment of `l` at `d` reaches group `k` of the block
/// at position `p`.
pub open spec fn may_reach(body: CompilerBody, p: int, k: int, l: u32, d: MirPoint) -> bool {
    exists|path: Seq<(int, int)>|
        #[trigger] arrives(body.blocks@, path, p) && value_at(body, path, k, l) == Some(d)
}

/// Whether on some runtime path no tracked assignment of `l` reaches group `k` of the
/// block at position `p`.
pub open spec fn may_lack(body: CompilerBody, p: int, k: int, l: u32) -> bool {
    exists|path: Seq<(int, int)>|
        #[trigger] arrives(body.blocks@, path, p) && value_at(body, path, k, l) is None
}

/// Whether on some runtime path an unknown memory effect happens before group `k` of the
/// block at position `p`.
pub open spec fn may_meet_unknown(body: CompilerBody, p: int, k: int) -> bool {
    exists|path: Seq<(int, int)>|
        #[trigger] arrives(body.blocks@, path, p) && !unknowns_at(body, path, k).is_empty()
}

} // verus!
