//! The abstract states of reaching definitions: for each tracked local the assignments
//! that may hold and whether none may, plus the unknown memory effects that may have
//! happened. A state at a block is sound when it covers every runtime path to the block,
//! and precise when each of its facts happens on some such path.
use crate::compiler::{CompilerBlock, CompilerBody, CompilerEdgeKind, CompilerLocalEffects, CompilerUnknownEffect};
use crate::control::AnalysisControl;
use crate::flow::{
    effect_at, effect_kinds, effect_rank, killed, lemma_effect_rank, rank_of_effect,
    arrives, edge_write, group_count, path_end, path_ok, runtime_step, step_target, unknowns_along,
    unknowns_before, value_along, MirPoint,
};
use vstd::prelude::*;

verus! {

/// An abstract state over the tracked locals, slot by slot.
pub struct Abstract {
    pub slots: Seq<(Set<MirPoint>, bool)>,
    pub unknown: Set<CompilerUnknownEffect>,
}

/// A slot after a write: `None` leaves it, an assignment makes it that one point, and the
/// end of a value makes it empty and possibly uninitialized.
pub open spec fn apply_write(w: Option<Option<MirPoint>>, v: (Set<MirPoint>, bool)) -> (
    Set<MirPoint>,
    bool,
) {
    match w {
        None => v,
        Some(Some(pt)) => (Set::empty().insert(pt), false),
        Some(None) => (Set::empty(), true),
    }
}

/// The state on entry to the body: each argument assigned at the entry, every other local
/// without a tracked value.
pub open spec fn initial(body: CompilerBody, lids: Seq<u32>) -> Abstract {
    Abstract {
        slots: Seq::new(
            lids.len(),
            |i: int|
                if 1 <= lids[i] <= body.argument_count {
                    (Set::empty().insert(MirPoint::Entry), false)
                } else {
                    (Set::<MirPoint>::empty(), true)
                },
        ),
        unknown: Set::empty(),
    }
}

/// The state that leaves the block at position `q` along successor `j`, from the state `a`
/// on entry to that block.
pub open spec fn leave(body: CompilerBody, lids: Seq<u32>, q: int, j: int, a: Abstract) -> Abstract {
    let blk = body.blocks@[q];
    Abstract {
        slots: Seq::new(a.slots.len(), |i: int| apply_write(edge_write(blk, j, lids[i]), a.slots[i])),
        unknown: a.unknown + unknowns_before(blk, group_count(blk)),
    }
}

/// The join of two states of the same shape.
pub open spec fn join(x: Abstract, y: Abstract) -> Abstract {
    Abstract {
        slots: Seq::new(
            x.slots.len(),
            |i: int| (x.slots[i].0 + y.slots[i].0, x.slots[i].1 || y.slots[i].1),
        ),
        unknown: x.unknown + y.unknown,
    }
}

/// Whether `x` claims no more than `y`.
pub open spec fn below(x: Abstract, y: Abstract) -> bool {
    &&& x.slots.len() == y.slots.len()
    &&& forall|i: int|
        0 <= i < x.slots.len() ==> (#[trigger] x.slots[i]).0.subset_of(y.slots[i].0) && (
        x.slots[i].1 ==> y.slots[i].1)
    &&& x.unknown.subset_of(y.unknown)
}

/// Whether the state `a` claims everything that holds at the end of `path`.
pub open spec fn covers_path(body: CompilerBody, lids: Seq<u32>, path: Seq<(int, int)>, a: Abstract) -> bool {
    &&& a.slots.len() == lids.len()
    &&& forall|i: int|
        0 <= i < lids.len() ==> match #[trigger] value_along(body, path, lids[i]) {
            Some(d) => a.slots[i].0.contains(d),
            None => a.slots[i].1,
        }
    &&& unknowns_along(body, path).subset_of(a.unknown)
}

/// Whether on some runtime path to the block at `p`, `l` holds the assignment at `d`.
pub open spec fn holds_on_entry(body: CompilerBody, p: int, l: u32, d: MirPoint) -> bool {
    exists|path: Seq<(int, int)>|
        #[trigger] arrives(body.blocks@, path, p) && value_along(body, path, l) == Some(d)
}

/// Whether on some runtime path to the block at `p`, `l` holds no tracked assignment.
pub open spec fn lacks_on_entry(body: CompilerBody, p: int, l: u32) -> bool {
    exists|path: Seq<(int, int)>|
        #[trigger] arrives(body.blocks@, path, p) && value_along(body, path, l) is None
}

/// Whether some runtime path to the block at `p` meets the unknown effect `e`.
pub open spec fn meets_on_entry(body: CompilerBody, p: int, e: CompilerUnknownEffect) -> bool {
    exists|path: Seq<(int, int)>|
        #[trigger] arrives(body.blocks@, path, p) && unknowns_along(body, path).contains(e)
}

/// Whether every fact of `a` happens on some runtime path to the block at `p`.
pub open spec fn justified(body: CompilerBody, lids: Seq<u32>, p: int, a: Abstract) -> bool {
    &&& a.slots.len() == lids.len()
    &&& forall|i: int, d: MirPoint|
        0 <= i < lids.len() && #[trigger] a.slots[i].0.contains(d) ==> holds_on_entry(
            body,
            p,
            lids[i],
            d,
        )
    &&& forall|i: int| 0 <= i < lids.len() && (#[trigger] a.slots[i]).1 ==> lacks_on_entry(body, p, lids[i])
    &&& forall|e: CompilerUnknownEffect| #[trigger] a.unknown.contains(e) ==> meets_on_entry(body, p, e)
}

/// Whether the entry states `entries` (by block position) are closed under leaving the
/// block at `q`: each runtime successor has a state that claims what leaves `q`.
pub open spec fn stable_at(body: CompilerBody, lids: Seq<u32>, entries: Seq<Option<Abstract>>, q: int) -> bool {
    entries[q] is Some ==> forall|j: int|
        #[trigger] runtime_step(body.blocks@, q, j) ==> {
            let t = step_target(body.blocks@, q, j);
            &&& 0 <= t < entries.len()
            &&& entries[t] is Some
            &&& below(leave(body, lids, q, j, entries[q]->Some_0), entries[t]->Some_0)
        }
}

// ---------------------------------------------------------------------------
// Lemmas
// ---------------------------------------------------------------------------

/// A state above one that covers a path covers it too.
pub proof fn lemma_covers_above(body: CompilerBody, lids: Seq<u32>, path: Seq<(int, int)>, a: Abstract, c: Abstract)
    requires
        covers_path(body, lids, path, a),
        below(a, c),
    ensures
        covers_path(body, lids, path, c),
{
    assert forall|i: int| 0 <= i < lids.len() implies match #[trigger] value_along(body, path, lids[i]) {
        Some(d) => c.slots[i].0.contains(d),
        None => c.slots[i].1,
    } by {
        assert(a.slots[i].0.subset_of(c.slots[i].0));
    }
}

/// Leaving a block along a runtime step carries coverage of a path to coverage of the
/// path extended by that step.
pub proof fn lemma_leave_covers(
    body: CompilerBody,
    lids: Seq<u32>,
    path: Seq<(int, int)>,
    q: int,
    j: int,
    a: Abstract,
)
    requires
        covers_path(body, lids, path, a),
    ensures
        covers_path(body, lids, path.push((q, j)), leave(body, lids, q, j, a)),
{
    let ext = path.push((q, j));
    assert(ext.drop_last() =~= path);
    assert(ext.last() == (q, j));
    let out = leave(body, lids, q, j, a);
    assert forall|i: int| 0 <= i < lids.len() implies match #[trigger] value_along(body, ext, lids[i]) {
        Some(d) => out.slots[i].0.contains(d),
        None => out.slots[i].1,
    } by {
        assert(out.slots[i] == apply_write(edge_write(body.blocks@[q], j, lids[i]), a.slots[i]));
        assert(match value_along(body, path, lids[i]) {
            Some(d) => a.slots[i].0.contains(d),
            None => a.slots[i].1,
        });
    }
}

/// The state on entry covers the empty path.
pub proof fn lemma_initial_covers(body: CompilerBody, lids: Seq<u32>)
    ensures
        covers_path(body, lids, Seq::<(int, int)>::empty(), initial(body, lids)),
{
    let a = initial(body, lids);
    let path = Seq::<(int, int)>::empty();
    assert forall|i: int| 0 <= i < lids.len() implies match #[trigger] value_along(body, path, lids[i]) {
        Some(d) => a.slots[i].0.contains(d),
        None => a.slots[i].1,
    } by {}
}

/// Entry states that are stable everywhere, with the entry state above the initial state,
/// cover every runtime path: each path ends at a block with a state that claims all that
/// holds at its end.
pub proof fn lemma_stable_covers(
    body: CompilerBody,
    lids: Seq<u32>,
    entries: Seq<Option<Abstract>>,
    path: Seq<(int, int)>,
)
    requires
        entries.len() == body.blocks@.len(),
        forall|q: int| 0 <= q < entries.len() ==> #[trigger] stable_at(body, lids, entries, q),
        0 <= path_end(body.blocks@, Seq::<(int, int)>::empty()) < entries.len(),
        entries[path_end(body.blocks@, Seq::<(int, int)>::empty())] matches Some(e) && below(
            initial(body, lids),
            e,
        ),
        path_ok(body.blocks@, path),
    ensures
        0 <= path_end(body.blocks@, path) < entries.len(),
        entries[path_end(body.blocks@, path)] matches Some(e) && covers_path(body, lids, path, e),
    decreases path.len(),
{
    if path.len() == 0 {
        lemma_initial_covers(body, lids);
        lemma_covers_above(
            body,
            lids,
            path,
            initial(body, lids),
            entries[path_end(body.blocks@, path)]->Some_0,
        );
        assert(path =~= Seq::<(int, int)>::empty());
    } else {
        let prior = path.drop_last();
        let (q, j) = path.last();
        lemma_stable_covers(body, lids, entries, prior);
        assert(q == path_end(body.blocks@, prior));
        assert(runtime_step(body.blocks@, q, j));
        assert(stable_at(body, lids, entries, q));
        let eq = entries[q]->Some_0;
        let t = step_target(body.blocks@, q, j);
        lemma_leave_covers(body, lids, prior, q, j, eq);
        assert(prior.push((q, j)) =~= path);
        lemma_covers_above(body, lids, path, leave(body, lids, q, j, eq), entries[t]->Some_0);
    }
}

/// The state on entry is justified at the entry block.
pub proof fn lemma_initial_justified(body: CompilerBody, lids: Seq<u32>)
    ensures
        justified(body, lids, path_end(body.blocks@, Seq::<(int, int)>::empty()), initial(body, lids)),
{
    let a = initial(body, lids);
    let path = Seq::<(int, int)>::empty();
    let p = path_end(body.blocks@, path);
    assert(arrives(body.blocks@, path, p));
    assert forall|i: int, d: MirPoint|
        0 <= i < lids.len() && #[trigger] a.slots[i].0.contains(d) implies holds_on_entry(body, p, lids[i], d) by {
        assert(value_along(body, path, lids[i]) == Some(d));
    }
    assert forall|i: int| 0 <= i < lids.len() && (#[trigger] a.slots[i]).1 implies lacks_on_entry(body, p, lids[i]) by {
        assert(value_along(body, path, lids[i]) is None);
    }
}

/// The join of two justified states is justified.
pub proof fn lemma_join_justified(body: CompilerBody, lids: Seq<u32>, p: int, x: Abstract, y: Abstract)
    requires
        justified(body, lids, p, x),
        justified(body, lids, p, y),
    ensures
        justified(body, lids, p, join(x, y)),
{
    let z = join(x, y);
    assert forall|i: int, d: MirPoint|
        0 <= i < lids.len() && #[trigger] z.slots[i].0.contains(d) implies holds_on_entry(body, p, lids[i], d) by {
        if x.slots[i].0.contains(d) {
        } else {
            assert(y.slots[i].0.contains(d));
        }
    }
    assert forall|i: int| 0 <= i < lids.len() && (#[trigger] z.slots[i]).1 implies lacks_on_entry(body, p, lids[i]) by {
        if x.slots[i].1 {
        } else {
            assert(y.slots[i].1);
        }
    }
}

/// What leaves a reached block along a runtime step is justified at the step's target.
pub proof fn lemma_leave_justified(
    body: CompilerBody,
    lids: Seq<u32>,
    q: int,
    j: int,
    a: Abstract,
    witness: Seq<(int, int)>,
)
    requires
        justified(body, lids, q, a),
        arrives(body.blocks@, witness, q),
        runtime_step(body.blocks@, q, j),
    ensures
        justified(body, lids, step_target(body.blocks@, q, j), leave(body, lids, q, j, a)),
{
    let t = step_target(body.blocks@, q, j);
    let out = leave(body, lids, q, j, a);
    let blk = body.blocks@[q];
    assert forall|path: Seq<(int, int)>| arrives(body.blocks@, path, q) implies #[trigger] arrives(
        body.blocks@,
        path.push((q, j)),
        t,
    ) && (forall|l: u32| #[trigger] value_along(body, path.push((q, j)), l) == match edge_write(blk, j, l) {
        Some(v) => v,
        None => value_along(body, path, l),
    }) && unknowns_along(body, path.push((q, j))) == unknowns_along(body, path) + unknowns_before(
        blk,
        group_count(blk),
    ) by {
        let ext = path.push((q, j));
        assert(ext.drop_last() =~= path);
        assert(ext.last() == (q, j));
    }
    assert forall|i: int, d: MirPoint|
        0 <= i < lids.len() && #[trigger] out.slots[i].0.contains(d) implies holds_on_entry(body, t, lids[i], d) by {
        let l = lids[i];
        match edge_write(blk, j, l) {
            Some(v) => {
                assert(arrives(body.blocks@, witness.push((q, j)), t));
                assert(value_along(body, witness.push((q, j)), l) == v);
            },
            None => {
                assert(a.slots[i].0.contains(d));
                assert(holds_on_entry(body, q, l, d));
                let w = choose|path: Seq<(int, int)>|
                    #[trigger] arrives(body.blocks@, path, q) && value_along(body, path, l) == Some(d);
                assert(arrives(body.blocks@, w.push((q, j)), t));
                assert(value_along(body, w.push((q, j)), l) == Some(d));
            },
        }
    }
    assert forall|i: int| 0 <= i < lids.len() && (#[trigger] out.slots[i]).1 implies lacks_on_entry(body, t, lids[i]) by {
        let l = lids[i];
        match edge_write(blk, j, l) {
            Some(v) => {
                assert(arrives(body.blocks@, witness.push((q, j)), t));
                assert(value_along(body, witness.push((q, j)), l) == v);
            },
            None => {
                assert(a.slots[i].1);
                assert(lacks_on_entry(body, q, l));
                let w = choose|path: Seq<(int, int)>|
                    #[trigger] arrives(body.blocks@, path, q) && value_along(body, path, l) is None;
                assert(arrives(body.blocks@, w.push((q, j)), t));
                assert(value_along(body, w.push((q, j)), l) is None);
            },
        }
    }
    assert forall|e: CompilerUnknownEffect| #[trigger] out.unknown.contains(e) implies meets_on_entry(body, t, e) by {
        if a.unknown.contains(e) {
            assert(meets_on_entry(body, q, e));
            let w = choose|path: Seq<(int, int)>|
                #[trigger] arrives(body.blocks@, path, q) && unknowns_along(body, path).contains(e);
            assert(arrives(body.blocks@, w.push((q, j)), t));
            assert(unknowns_along(body, w.push((q, j))).contains(e));
        } else {
            assert(arrives(body.blocks@, witness.push((q, j)), t));
            assert(unknowns_along(body, witness.push((q, j))).contains(e));
        }
    }
}

/// A justified state that covers every runtime path to a reached block is exactly what
/// holds on entry to it.
pub proof fn lemma_exact(body: CompilerBody, lids: Seq<u32>, p: int, a: Abstract)
    requires
        justified(body, lids, p, a),
        forall|path: Seq<(int, int)>| #[trigger] arrives(body.blocks@, path, p) ==> covers_path(body, lids, path, a),
    ensures
        forall|i: int, d: MirPoint|
            0 <= i < lids.len() ==> (#[trigger] a.slots[i].0.contains(d) <==> holds_on_entry(body, p, lids[i], d)),
        forall|i: int| 0 <= i < lids.len() ==> ((#[trigger] a.slots[i]).1 <==> lacks_on_entry(body, p, lids[i])),
        forall|e: CompilerUnknownEffect| #[trigger] a.unknown.contains(e) <==> meets_on_entry(body, p, e),
{
    assert forall|i: int, d: MirPoint| 0 <= i < lids.len() && holds_on_entry(body, p, lids[i], d) implies #[trigger] a.slots[i].0.contains(d) by {
        let w = choose|path: Seq<(int, int)>|
            #[trigger] arrives(body.blocks@, path, p) && value_along(body, path, lids[i]) == Some(d);
        assert(covers_path(body, lids, w, a));
        assert(match value_along(body, w, lids[i]) {
            Some(d) => a.slots[i].0.contains(d),
            None => a.slots[i].1,
        });
    }
    assert forall|i: int| 0 <= i < lids.len() && lacks_on_entry(body, p, lids[i]) implies (#[trigger] a.slots[i]).1 by {
        let w = choose|path: Seq<(int, int)>|
            #[trigger] arrives(body.blocks@, path, p) && value_along(body, path, lids[i]) is None;
        assert(covers_path(body, lids, w, a));
        assert(match value_along(body, w, lids[i]) {
            Some(d) => a.slots[i].0.contains(d),
            None => a.slots[i].1,
        });
    }
    assert forall|e: CompilerUnknownEffect| meets_on_entry(body, p, e) implies #[trigger] a.unknown.contains(e) by {
        let w = choose|path: Seq<(int, int)>|
            #[trigger] arrives(body.blocks@, path, p) && unknowns_along(body, path).contains(e);
        assert(covers_path(body, lids, w, a));
    }
}

} // verus!

verus! {

// ---------------------------------------------------------------------------
// Executable states
// ---------------------------------------------------------------------------

/// The facts of one tracked local: the points of the assignments that may hold, without
/// repetition, and whether no tracked assignment may hold.
pub struct Slot {
    pub defs: Vec<MirPoint>,
    pub uninit: bool,
}

/// An abstract state: one slot per tracked local, in the order of `lids`, and one flag per
/// kind of unknown effect, by rank.
pub struct FlowState {
    pub slots: Vec<Slot>,
    pub unknown: Vec<bool>,
}

/// What a statement or terminator with effects `e` at point `pt` does to `l`.
pub open spec fn step_write(e: CompilerLocalEffects, pt: MirPoint, l: u32) -> Option<Option<MirPoint>> {
    if e.defs@.contains(l) {
        Some(Some(pt))
    } else if killed(e, l) {
        Some(None)
    } else {
        None
    }
}

/// Whether every local that `e` names is tracked.
pub open spec fn effects_tracked(e: CompilerLocalEffects, lids: Seq<u32>) -> bool {
    &&& forall|k: int| 0 <= k < e.defs@.len() ==> lids.contains(#[trigger] e.defs@[k])
    &&& forall|k: int| 0 <= k < e.uses@.len() ==> lids.contains(#[trigger] e.uses@[k])
    &&& forall|k: int| 0 <= k < e.moves@.len() ==> lids.contains(#[trigger] e.moves@[k])
    &&& forall|k: int| 0 <= k < e.storage_live@.len() ==> lids.contains(#[trigger] e.storage_live@[k])
    &&& forall|k: int| 0 <= k < e.storage_dead@.len() ==> lids.contains(#[trigger] e.storage_dead@[k])
}

/// The facts a state's number of facts counts: each local with some assignment, each
/// assignment, and each unknown effect.
pub open spec fn slot_facts(s: Seq<Slot>) -> int
    decreases s.len(),
{
    if s.len() == 0 {
        0
    } else {
        slot_facts(s.drop_last()) + (if s.last().defs@.len() > 0 {
            1int
        } else {
            0int
        }) + s.last().defs@.len()
    }
}

/// The number of set flags.
pub open spec fn flags_set(s: Seq<bool>) -> int
    decreases s.len(),
{
    if s.len() == 0 {
        0
    } else {
        flags_set(s.drop_last()) + if s.last() {
            1int
        } else {
            0int
        }
    }
}

impl FlowState {
    /// Whether the state has `n` slots, one flag per kind of effect, and no repeated point.
    pub open spec fn wf(self, n: int) -> bool {
        &&& self.slots@.len() == n
        &&& self.unknown@.len() == effect_kinds()
        &&& forall|i: int| 0 <= i < n ==> (#[trigger] self.slots@[i]).defs@.no_duplicates()
    }

    /// The abstract state this state stands for.
    pub open spec fn abs(self) -> Abstract {
        Abstract {
            slots: Seq::new(
                self.slots@.len(),
                |i: int| (self.slots@[i].defs@.to_set(), self.slots@[i].uninit),
            ),
            unknown: Set::new(|e: CompilerUnknownEffect| self.unknown@[effect_rank(e)]),
        }
    }

    /// The number of facts the state holds.
    pub open spec fn facts(self) -> int {
        slot_facts(self.slots@) + flags_set(self.unknown@)
    }
}

/// The slot of a tracked local.
pub fn slot_index(lids: &Vec<u32>, l: u32) -> (r: usize)
    requires
        lids@.contains(l),
    ensures
        r < lids@.len(),
        lids@[r as int] == l,
{
    let mut i: usize = 0;
    while i < lids.len()
        invariant
            i <= lids@.len(),
            lids@.contains(l),
            forall|k: int| 0 <= k < i ==> lids@[k] != l,
        decreases lids.len() - i,
    {
        if lids[i] == l {
            return i;
        }
        i += 1;
    }
    proof {
        let k = choose|k: int| 0 <= k < lids@.len() && lids@[k] == l;
        assert(lids@[k] == l);
    }
    0
}

/// An equal slot.
fn copy_slot(s: &Slot) -> (r: Slot)
    ensures
        r.defs@ == s.defs@,
        r.uninit == s.uninit,
{
    let mut defs: Vec<MirPoint> = Vec::new();
    let mut k: usize = 0;
    while k < s.defs.len()
        invariant
            k <= s.defs@.len(),
            defs@ == s.defs@.take(k as int),
        decreases s.defs.len() - k,
    {
        defs.push(s.defs[k]);
        k += 1;
        proof {
            assert(defs@ =~= s.defs@.take(k as int));
        }
    }
    proof {
        assert(s.defs@.take(k as int) =~= s.defs@);
    }
    Slot { defs, uninit: s.uninit }
}

impl FlowState {
    /// An equal state.
    pub fn copy(&self) -> (r: FlowState)
        ensures
            r.slots@.len() == self.slots@.len(),
            forall|i: int| 0 <= i < self.slots@.len() ==> (#[trigger] r.slots@[i]).defs@ == self.slots@[i].defs@ && r.slots@[i].uninit == self.slots@[i].uninit,
            r.unknown@ == self.unknown@,
            r.abs() == self.abs(),
            forall|n: int| self.wf(n) ==> #[trigger] r.wf(n),
            r.facts() == self.facts(),
    {
        let mut slots: Vec<Slot> = Vec::new();
        let mut i: usize = 0;
        while i < self.slots.len()
            invariant
                i <= self.slots@.len(),
                slots@.len() == i,
                forall|k: int| 0 <= k < i ==> (#[trigger] slots@[k]).defs@ == self.slots@[k].defs@ && slots@[k].uninit == self.slots@[k].uninit,
            decreases self.slots.len() - i,
        {
            slots.push(copy_slot(&self.slots[i]));
            i += 1;
        }
        let mut unknown: Vec<bool> = Vec::new();
        let mut k: usize = 0;
        while k < self.unknown.len()
            invariant
                k <= self.unknown@.len(),
                unknown@ == self.unknown@.take(k as int),
            decreases self.unknown.len() - k,
        {
            unknown.push(self.unknown[k]);
            k += 1;
            proof {
                assert(unknown@ =~= self.unknown@.take(k as int));
            }
        }
        proof {
            assert(self.unknown@.take(k as int) =~= self.unknown@);
        }
        let r = FlowState { slots, unknown };
        proof {
            assert(r.abs().slots =~= self.abs().slots);
            assert(r.abs().unknown =~= self.abs().unknown);
            lemma_slot_facts_same(r.slots@, self.slots@);
        }
        r
    }
}

/// Slot lists with the same points have the same number of facts.
proof fn lemma_slot_facts_same(a: Seq<Slot>, b: Seq<Slot>)
    requires
        a.len() == b.len(),
        forall|i: int| 0 <= i < a.len() ==> (#[trigger] a[i]).defs@.len() == b[i].defs@.len(),
    ensures
        slot_facts(a) == slot_facts(b),
    decreases a.len(),
{
    if a.len() > 0 {
        assert forall|i: int| 0 <= i < a.drop_last().len() implies (#[trigger] a.drop_last()[i]).defs@.len() == b.drop_last()[i].defs@.len() by {
            assert(a.drop_last()[i] == a[i]);
            assert(b.drop_last()[i] == b[i]);
        }
        lemma_slot_facts_same(a.drop_last(), b.drop_last());
        assert(a.last() == a[a.len() - 1]);
    }
}

} // verus!

verus! {

impl FlowState {
    /// The state on entry to a body whose tracked locals are `lids`.
    pub fn entry(body: &CompilerBody, lids: &Vec<u32>) -> (r: FlowState)
        ensures
            r.wf(lids@.len() as int),
            r.abs() == initial(*body, lids@),
    {
        let mut slots: Vec<Slot> = Vec::new();
        let mut i: usize = 0;
        while i < lids.len()
            invariant
                i <= lids@.len(),
                slots@.len() == i,
                forall|k: int| 0 <= k < i ==> (#[trigger] slots@[k]).defs@ == (if 1 <= lids@[k] <= body.argument_count {
                    seq![MirPoint::Entry]
                } else {
                    Seq::<MirPoint>::empty()
                }) && slots@[k].uninit == !(1 <= lids@[k] <= body.argument_count),
            decreases lids.len() - i,
        {
            let l = lids[i];
            if 1 <= l && l <= body.argument_count {
                let mut defs: Vec<MirPoint> = Vec::new();
                defs.push(MirPoint::Entry);
                slots.push(Slot { defs, uninit: false });
            } else {
                slots.push(Slot { defs: Vec::new(), uninit: true });
            }
            i += 1;
        }
        let mut unknown: Vec<bool> = Vec::new();
        let mut k: usize = 0;
        while k < 10
            invariant
                k <= 10,
                unknown@.len() == k,
                forall|m: int| 0 <= m < k ==> !(#[trigger] unknown@[m]),
            decreases 10 - k,
        {
            unknown.push(false);
            k += 1;
        }
        let r = FlowState { slots, unknown };
        proof {
            let want = initial(*body, lids@);
            assert forall|m: int| 0 <= m < lids@.len() implies #[trigger] r.abs().slots[m] == want.slots[m] by {
                if 1 <= lids@[m] <= body.argument_count {
                    assert(seq![MirPoint::Entry].to_set() =~= Set::empty().insert(MirPoint::Entry)) by {
                        assert(seq![MirPoint::Entry][0] == MirPoint::Entry);
                    }
                } else {
                    assert(Seq::<MirPoint>::empty().to_set() =~= Set::<MirPoint>::empty());
                }
            }
            assert(r.abs().slots =~= want.slots);
            assert forall|e: CompilerUnknownEffect| !(#[trigger] r.abs().unknown.contains(e)) by {
                lemma_effect_rank(e);
            }
            assert(r.abs().unknown =~= want.unknown);
            assert forall|m: int| 0 <= m < lids@.len() implies (#[trigger] r.slots@[m]).defs@.no_duplicates() by {}
        }
        r
    }

    /// Ends the tracked value of each listed local.
    fn clear_all(&mut self, lids: &Vec<u32>, list: &Vec<u32>)
        requires
            old(self).wf(lids@.len() as int),
            forall|k: int| 0 <= k < list@.len() ==> lids@.contains(#[trigger] list@[k]),
            lids@.no_duplicates(),
        ensures
            final(self).wf(lids@.len() as int),
            final(self).unknown@ == old(self).unknown@,
            forall|i: int|
                0 <= i < lids@.len() ==> if list@.contains(lids@[i]) {
                    (#[trigger] final(self).slots@[i]).defs@.len() == 0 && final(self).slots@[i].uninit
                } else {
                    final(self).slots@[i].defs@ == old(self).slots@[i].defs@ && final(self).slots@[i].uninit
                        == old(self).slots@[i].uninit
                },
    {
        let ghost start = *self;
        let mut k: usize = 0;
        while k < list.len()
            invariant
                k <= list@.len(),
                self.wf(lids@.len() as int),
                self.unknown@ == start.unknown@,
                start.wf(lids@.len() as int),
                lids@.no_duplicates(),
                forall|m: int| 0 <= m < list@.len() ==> lids@.contains(#[trigger] list@[m]),
                forall|i: int|
                    0 <= i < lids@.len() ==> if list@.take(k as int).contains(lids@[i]) {
                        (#[trigger] self.slots@[i]).defs@.len() == 0 && self.slots@[i].uninit
                    } else {
                        self.slots@[i].defs@ == start.slots@[i].defs@ && self.slots@[i].uninit
                            == start.slots@[i].uninit
                    },
            decreases list.len() - k,
        {
            let l = list[k];
            let i = slot_index(lids, l);
            self.slots.set(i, Slot { defs: Vec::new(), uninit: true });
            proof {
                assert(list@.take(k + 1) =~= list@.take(k as int).push(l));
                assert forall|m: int| 0 <= m < lids@.len() implies if list@.take(k + 1).contains(lids@[m]) {
                    (#[trigger] self.slots@[m]).defs@.len() == 0 && self.slots@[m].uninit
                } else {
                    self.slots@[m].defs@ == start.slots@[m].defs@ && self.slots@[m].uninit == start.slots@[m].uninit
                } by {
                    if m != i {
                        assert(lids@[m] != l);
                        if list@.take(k + 1).contains(lids@[m]) {
                            let w = choose|x: int| 0 <= x < k + 1 && #[trigger] list@.take(k + 1)[x] == lids@[m];
                            assert(w < k);
                            assert(list@.take(k as int)[w] == lids@[m]);
                        }
                        if list@.take(k as int).contains(lids@[m]) {
                            let w = choose|x: int| 0 <= x < k && #[trigger] list@.take(k as int)[x] == lids@[m];
                            assert(list@.take(k + 1)[w] == lids@[m]);
                        }
                    } else {
                        assert(list@.take(k + 1)[k as int] == l);
                    }
                }
            }
            k += 1;
        }
        proof {
            assert(list@.take(k as int) =~= list@);
        }
    }

    /// Assigns each listed local at `pt`.
    fn define_all(&mut self, lids: &Vec<u32>, list: &Vec<u32>, pt: MirPoint)
        requires
            old(self).wf(lids@.len() as int),
            forall|k: int| 0 <= k < list@.len() ==> lids@.contains(#[trigger] list@[k]),
            lids@.no_duplicates(),
        ensures
            final(self).wf(lids@.len() as int),
            final(self).unknown@ == old(self).unknown@,
            forall|i: int|
                0 <= i < lids@.len() ==> if list@.contains(lids@[i]) {
                    (#[trigger] final(self).slots@[i]).defs@ == seq![pt] && !final(self).slots@[i].uninit
                } else {
                    final(self).slots@[i].defs@ == old(self).slots@[i].defs@ && final(self).slots@[i].uninit
                        == old(self).slots@[i].uninit
                },
    {
        let ghost start = *self;
        let mut k: usize = 0;
        while k < list.len()
            invariant
                k <= list@.len(),
                self.wf(lids@.len() as int),
                self.unknown@ == start.unknown@,
                start.wf(lids@.len() as int),
                lids@.no_duplicates(),
                forall|m: int| 0 <= m < list@.len() ==> lids@.contains(#[trigger] list@[m]),
                forall|i: int|
                    0 <= i < lids@.len() ==> if list@.take(k as int).contains(lids@[i]) {
                        (#[trigger] self.slots@[i]).defs@ == seq![pt] && !self.slots@[i].uninit
                    } else {
                        self.slots@[i].defs@ == start.slots@[i].defs@ && self.slots@[i].uninit
                            == start.slots@[i].uninit
                    },
            decreases list.len() - k,
        {
            let l = list[k];
            let i = slot_index(lids, l);
            let mut defs: Vec<MirPoint> = Vec::new();
            defs.push(pt);
            self.slots.set(i, Slot { defs, uninit: false });
            proof {
                assert(list@.take(k + 1) =~= list@.take(k as int).push(l));
                assert(self.slots@[i as int].defs@ =~= seq![pt]);
                assert forall|m: int| 0 <= m < lids@.len() implies if list@.take(k + 1).contains(lids@[m]) {
                    (#[trigger] self.slots@[m]).defs@ == seq![pt] && !self.slots@[m].uninit
                } else {
                    self.slots@[m].defs@ == start.slots@[m].defs@ && self.slots@[m].uninit == start.slots@[m].uninit
                } by {
                    if m != i {
                        assert(lids@[m] != l);
                        if list@.take(k + 1).contains(lids@[m]) {
                            let w = choose|x: int| 0 <= x < k + 1 && #[trigger] list@.take(k + 1)[x] == lids@[m];
                            assert(w < k);
                            assert(list@.take(k as int)[w] == lids@[m]);
                        }
                        if list@.take(k as int).contains(lids@[m]) {
                            let w = choose|x: int| 0 <= x < k && #[trigger] list@.take(k as int)[x] == lids@[m];
                            assert(list@.take(k + 1)[w] == lids@[m]);
                        }
                    } else {
                        assert(list@.take(k + 1)[k as int] == l);
                    }
                }
                assert forall|m: int| 0 <= m < lids@.len() implies (#[trigger] self.slots@[m]).defs@.no_duplicates() by {
                    if m == i {
                        assert(seq![pt].no_duplicates());
                    }
                }
            }
            k += 1;
        }
        proof {
            assert(list@.take(k as int) =~= list@);
        }
    }

    /// Records each listed unknown effect.
    fn meet_all(&mut self, unknowns: &Vec<CompilerUnknownEffect>)
        requires
            old(self).unknown@.len() == effect_kinds(),
        ensures
            final(self).slots@ == old(self).slots@,
            final(self).unknown@.len() == effect_kinds(),
            final(self).abs().unknown == old(self).abs().unknown + unknowns@.to_set(),
    {
        let ghost start = *self;
        let mut k: usize = 0;
        while k < unknowns.len()
            invariant
                k <= unknowns@.len(),
                self.slots@ == start.slots@,
                self.unknown@.len() == effect_kinds(),
                forall|r: int|
                    0 <= r < effect_kinds() ==> (#[trigger] self.unknown@[r] <==> (start.unknown@[r] || exists|x: int|
                        0 <= x < k && effect_rank(unknowns@[x]) == r)),
            decreases unknowns.len() - k,
        {
            let r = rank_of_effect(unknowns[k]);
            self.unknown.set(r, true);
            proof {
                assert forall|q: int| 0 <= q < effect_kinds() implies (#[trigger] self.unknown@[q] <==> (start.unknown@[q] || exists|x: int|
                    0 <= x < k + 1 && effect_rank(unknowns@[x]) == q)) by {
                    if q == r {
                        assert(effect_rank(unknowns@[k as int]) == q);
                    } else if exists|x: int| 0 <= x < k + 1 && effect_rank(unknowns@[x]) == q {
                        let x = choose|x: int| 0 <= x < k + 1 && #[trigger] effect_rank(unknowns@[x]) == q;
                        assert(x < k);
                    }
                }
            }
            k += 1;
        }
        proof {
            assert forall|e: CompilerUnknownEffect| #[trigger] self.abs().unknown.contains(e) == (start.abs().unknown + unknowns@.to_set()).contains(e) by {
                lemma_effect_rank(e);
                if unknowns@.to_set().contains(e) {
                    let x = choose|x: int| 0 <= x < unknowns@.len() && #[trigger] unknowns@[x] == e;
                    assert(effect_rank(unknowns@[x]) == effect_rank(e));
                }
                if exists|x: int| 0 <= x < k && effect_rank(unknowns@[x]) == effect_rank(e) {
                    let x = choose|x: int| 0 <= x < k && #[trigger] effect_rank(unknowns@[x]) == effect_rank(e);
                    lemma_effect_rank(unknowns@[x]);
                    assert(unknowns@[x] == e);
                    assert(unknowns@.to_set().contains(e));
                }
            }
            assert(self.abs().unknown =~= start.abs().unknown + unknowns@.to_set());
        }
    }
}

} // verus!

verus! {

/// Whether `v` holds `x`.
fn holds_point(v: &Vec<MirPoint>, x: MirPoint) -> (r: bool)
    ensures
        r == v@.contains(x),
{
    let mut k: usize = 0;
    while k < v.len()
        invariant
            k <= v@.len(),
            forall|m: int| 0 <= m < k ==> v@[m] != x,
        decreases v.len() - k,
    {
        if v[k] == x {
            return true;
        }
        k += 1;
    }
    false
}

/// The union of two slots, and whether it differs from the first.
fn merge_slot(a: &Slot, b: &Slot) -> (r: (Slot, bool))
    requires
        a.defs@.no_duplicates(),
    ensures
        r.0.defs@.no_duplicates(),
        r.0.defs@.to_set() == a.defs@.to_set() + b.defs@.to_set(),
        r.0.uninit == (a.uninit || b.uninit),
        r.1 == !(b.defs@.to_set().subset_of(a.defs@.to_set()) && (b.uninit ==> a.uninit)),
{
    let mut out = copy_slot(a);
    let mut changed = false;
    let mut k: usize = 0;
    while k < b.defs.len()
        invariant
            k <= b.defs@.len(),
            a.defs@.no_duplicates(),
            out.defs@.no_duplicates(),
            out.defs@.to_set() == a.defs@.to_set() + b.defs@.take(k as int).to_set(),
            out.uninit == a.uninit,
            changed == !b.defs@.take(k as int).to_set().subset_of(a.defs@.to_set()),
        decreases b.defs.len() - k,
    {
        let x = b.defs[k];
        let ghost before = out.defs@;
        proof {
            assert(b.defs@.take(k + 1) =~= b.defs@.take(k as int).push(x));
            b.defs@.take(k as int).lemma_push_to_set_commute(x);
            before.lemma_push_to_set_commute(x);
        }
        if !holds_point(&out.defs, x) {
            out.defs.push(x);
            changed = true;
            proof {
                assert(out.defs@ == before.push(x));
                assert forall|i: int, j: int| 0 <= i < j < out.defs@.len() implies out.defs@[i] != out.defs@[j] by {
                    if j == before.len() {
                        assert(before.contains(before[i]));
                    }
                }
                assert(!before.contains(x));
                assert(!before.to_set().contains(x));
                assert(a.defs@.to_set().subset_of(before.to_set()));
                assert(!a.defs@.to_set().contains(x));
            }
        } else {
            proof {
                assert(before.to_set().contains(x));
                assert(out.defs@.to_set() =~= before.to_set().insert(x));
                if !a.defs@.to_set().contains(x) {
                    assert(b.defs@.take(k as int).to_set().contains(x));
                }
            }
        }
        k += 1;
    }
    proof {
        assert(b.defs@.take(k as int) =~= b.defs@);
    }
    let flag_changed = b.uninit && !a.uninit;
    out.uninit = a.uninit || b.uninit;
    (out, changed || flag_changed)
}

impl FlowState {
    /// Applies one statement or terminator: the listed moves and storage events end their
    /// locals' values, the listed assignments then define theirs at `pt`, and the listed
    /// unknown effects are recorded.
    pub fn transfer(
        &mut self,
        lids: &Vec<u32>,
        e: &CompilerLocalEffects,
        unknowns: &Vec<CompilerUnknownEffect>,
        pt: MirPoint,
    )
        requires
            old(self).wf(lids@.len() as int),
            effects_tracked(*e, lids@),
            lids@.no_duplicates(),
        ensures
            final(self).wf(lids@.len() as int),
            final(self).abs().slots == Seq::new(
                lids@.len(),
                |i: int| apply_write(step_write(*e, pt, lids@[i]), old(self).abs().slots[i]),
            ),
            final(self).abs().unknown == old(self).abs().unknown + unknowns@.to_set(),
    {
        let ghost start = *self;
        self.clear_all(lids, &e.moves);
        let ghost s1 = *self;
        self.clear_all(lids, &e.storage_live);
        let ghost s2 = *self;
        self.clear_all(lids, &e.storage_dead);
        let ghost s3 = *self;
        self.define_all(lids, &e.defs, pt);
        let ghost s4 = *self;
        self.meet_all(unknowns);
        proof {
            let want = Seq::new(
                lids@.len(),
                |i: int| apply_write(step_write(*e, pt, lids@[i]), start.abs().slots[i]),
            );
            assert forall|i: int| 0 <= i < lids@.len() implies #[trigger] self.abs().slots[i] == want[i] by {
                let l = lids@[i];
                assert(self.slots@[i] == s4.slots@[i]);
                if e.defs@.contains(l) {
                    assert(seq![pt].to_set() =~= Set::empty().insert(pt)) by {
                        assert(seq![pt][0] == pt);
                    }
                } else if killed(*e, l) {
                    assert(s4.slots@[i].defs@.len() == 0);
                    assert(s4.slots@[i].defs@.to_set() =~= Set::<MirPoint>::empty());
                } else {
                    assert(s4.slots@[i].defs@ == start.slots@[i].defs@);
                }
            }
            assert(self.abs().slots =~= want);
        }
    }

    /// The state that leaves a block along successor `j`, from the state after its
    /// terminator: a normal return then assigns the call's destination locals.
    pub fn leave_along(&self, lids: &Vec<u32>, blk: &CompilerBlock, j: usize) -> (r: FlowState)
        requires
            self.wf(lids@.len() as int),
            j < blk.terminator.successors@.len(),
            forall|k: int| 0 <= k < blk.terminator.normal_return_defs@.len() ==> lids@.contains(
                #[trigger] blk.terminator.normal_return_defs@[k],
            ),
            lids@.no_duplicates(),
        ensures
            r.wf(lids@.len() as int),
            r.abs().slots == Seq::new(
                lids@.len(),
                |i: int|
                    apply_write(
                        if blk.terminator.successors@[j as int].kind == CompilerEdgeKind::Normal
                            && blk.terminator.normal_return_defs@.contains(lids@[i]) {
                            Some(
                                Some(
                                    MirPoint::NormalReturn {
                                        block: blk.index,
                                        target: blk.terminator.successors@[j as int].target,
                                    },
                                ),
                            )
                        } else {
                            None
                        },
                        self.abs().slots[i],
                    ),
            ),
            r.abs().unknown == self.abs().unknown,
    {
        let mut r = self.copy();
        let edge = &blk.terminator.successors[j];
        let normal = edge.kind == CompilerEdgeKind::Normal;
        if normal {
            let pt = MirPoint::NormalReturn { block: blk.index, target: edge.target };
            r.define_all(lids, &blk.terminator.normal_return_defs, pt);
            proof {
                assert(seq![pt].to_set() =~= Set::empty().insert(pt)) by {
                    assert(seq![pt][0] == pt);
                }
            }
        }
        proof {
            let want = Seq::new(
                lids@.len(),
                |i: int|
                    apply_write(
                        if normal && blk.terminator.normal_return_defs@.contains(lids@[i]) {
                            Some(
                                Some(
                                    MirPoint::NormalReturn {
                                        block: blk.index,
                                        target: blk.terminator.successors@[j as int].target,
                                    },
                                ),
                            )
                        } else {
                            None
                        },
                        self.abs().slots[i],
                    ),
            );
            assert forall|i: int| 0 <= i < lids@.len() implies #[trigger] r.abs().slots[i] == want[i] by {}
            assert(r.abs().slots =~= want);
            assert(r.abs().unknown =~= self.abs().unknown);
        }
        r
    }

    /// Joins `other` into this state. Returns `None`, leaving the state unusable, when the
    /// control asks to stop; else whether the state changed.
    pub fn join_from(&mut self, other: &FlowState, n: usize, control: &AnalysisControl) -> (r: Option<bool>)
        requires
            old(self).wf(n as int),
            other.wf(n as int),
        ensures
            r matches Some(changed) ==> {
                &&& final(self).wf(n as int)
                &&& final(self).abs() == join(old(self).abs(), other.abs())
                &&& changed == !below(other.abs(), old(self).abs())
            },
    {
        let ghost start = *self;
        let ghost sa = start.abs();
        let ghost oa = other.abs();
        let ghost want = join(sa, oa);
        let mut changed = false;
        let mut i: usize = 0;
        while i < n
            invariant
                i <= n,
                start.wf(n as int),
                other.wf(n as int),
                self.wf(n as int),
                sa == start.abs(),
                oa == other.abs(),
                want == join(sa, oa),
                self.unknown@ == start.unknown@,
                forall|m: int| i <= m < n ==> (#[trigger] self.slots@[m]).defs@ == start.slots@[m].defs@ && self.slots@[m].uninit == start.slots@[m].uninit,
                forall|m: int| 0 <= m < i ==> (#[trigger] self.abs().slots[m]) == want.slots[m],
                changed == exists|m: int| 0 <= m < i && #[trigger] slot_grows(sa, oa, m),
            decreases n - i,
        {
            if control.stopped() {
                return None;
            }
            let ghost prev = *self;
            let ghost was = changed;
            let (merged, grew) = merge_slot(&self.slots[i], &other.slots[i]);
            self.slots.set(i, merged);
            if grew {
                changed = true;
            }
            proof {
                assert(self.abs().slots[i as int] == want.slots[i as int]);
                assert(grew == slot_grows(sa, oa, i as int));
                assert forall|m: int| 0 <= m < i + 1 implies (#[trigger] self.abs().slots[m]) == want.slots[m] by {
                    if m < i {
                        assert(self.slots@[m] == prev.slots@[m]);
                        assert(prev.abs().slots[m] == want.slots[m]);
                    }
                }
                if was {
                    let m = choose|m: int| 0 <= m < i && #[trigger] slot_grows(sa, oa, m);
                    assert(0 <= m < i + 1 && slot_grows(sa, oa, m));
                }
                if exists|m: int| 0 <= m < i + 1 && #[trigger] slot_grows(sa, oa, m) {
                    let m = choose|m: int| 0 <= m < i + 1 && #[trigger] slot_grows(sa, oa, m);
                    if m < i {
                        assert(was);
                    } else {
                        assert(grew);
                    }
                }
            }
            i += 1;
        }
        let mut k: usize = 0;
        let ghost mid_changed = changed;
        let ghost mid = *self;
        while k < 10
            invariant
                k <= 10,
                self.slots@ == mid.slots@,
                self.unknown@.len() == effect_kinds(),
                mid.unknown@ == start.unknown@,
                start.wf(n as int),
                other.wf(n as int),
                forall|q: int| 0 <= q < k ==> (#[trigger] self.unknown@[q] == (start.unknown@[q] || other.unknown@[q])),
                forall|q: int| k <= q < 10 ==> (#[trigger] self.unknown@[q] == start.unknown@[q]),
                changed == (mid_changed || exists|q: int| 0 <= q < k && #[trigger] other.unknown@[q] && !start.unknown@[q]),
            decreases 10 - k,
        {
            if other.unknown[k] && !self.unknown[k] {
                self.unknown.set(k, true);
                changed = true;
            }
            k += 1;
        }
        proof {
            assert(self.abs().slots =~= mid.abs().slots);
            assert(self.abs().slots =~= want.slots);
            assert forall|e: CompilerUnknownEffect| #[trigger] self.abs().unknown.contains(e) == want.unknown.contains(e) by {
                lemma_effect_rank(e);
            }
            assert(self.abs().unknown =~= want.unknown);
            if changed != !below(oa, sa) {
                if changed {
                    if mid_changed {
                        let m = choose|m: int| 0 <= m < n && #[trigger] slot_grows(sa, oa, m);
                        assert(false);
                    } else {
                        let q = choose|q: int| 0 <= q < 10 && #[trigger] other.unknown@[q] && !start.unknown@[q];
                        assert(oa.unknown.contains(effect_at(q)));
                        assert(effect_rank(effect_at(q)) == q);
                        assert(false);
                    }
                } else {
                    assert(below(oa, sa)) by {
                        assert forall|m: int| 0 <= m < n implies (#[trigger] oa.slots[m]).0.subset_of(sa.slots[m].0) && (oa.slots[m].1 ==> sa.slots[m].1) by {
                            assert(!slot_grows(sa, oa, m));
                        }
                        assert forall|e: CompilerUnknownEffect| oa.unknown.contains(e) implies sa.unknown.contains(e) by {
                            lemma_effect_rank(e);
                            let q = effect_rank(e);
                            assert(!(other.unknown@[q] && !start.unknown@[q]));
                        }
                    }
                }
            }
        }
        Some(changed)
    }
}

/// Whether slot `m` of `y` claims something that slot `m` of `x` does not.
pub open spec fn slot_grows(x: Abstract, y: Abstract, m: int) -> bool {
    !(y.slots[m].0.subset_of(x.slots[m].0) && (y.slots[m].1 ==> x.slots[m].1))
}

} // verus!

verus! {

impl FlowState {
    /// The number of facts, or `cap + 1` when it exceeds `cap`.
    pub fn facts_capped(&self, cap: u64) -> (r: u64)
        requires
            cap < u64::MAX,
        ensures
            r <= cap + 1,
            r <= cap ==> r == self.facts(),
            r == cap + 1 ==> self.facts() > cap,
    {
        let mut total: u64 = 0;
        let mut i: usize = 0;
        while i < self.slots.len()
            invariant
                i <= self.slots@.len(),
                cap < u64::MAX,
                total <= cap,
                total == slot_facts(self.slots@.take(i as int)),
            decreases self.slots.len() - i,
        {
            let len = self.slots[i].defs.len();
            proof {
                assert(self.slots@.take(i + 1).drop_last() =~= self.slots@.take(i as int));
                lemma_slot_facts_prefix(self.slots@, i as int);
            }
            if len as u64 > cap || (len as u64) > cap - total {
                proof {
                    lemma_slot_facts_monotone(self.slots@, i + 1);
                    lemma_flags_nonnegative(self.unknown@);
                }
                return cap + 1;
            }
            let add: u64 = if len > 0 {
                len as u64 + 1
            } else {
                0
            };
            if add > cap - total {
                proof {
                    lemma_slot_facts_monotone(self.slots@, i + 1);
                    lemma_flags_nonnegative(self.unknown@);
                }
                return cap + 1;
            }
            total = total + add;
            i += 1;
        }
        proof {
            assert(self.slots@.take(i as int) =~= self.slots@);
        }
        let mut k: usize = 0;
        while k < self.unknown.len()
            invariant
                k <= self.unknown@.len(),
                cap < u64::MAX,
                total <= cap,
                total == slot_facts(self.slots@) + flags_set(self.unknown@.take(k as int)),
            decreases self.unknown.len() - k,
        {
            proof {
                assert(self.unknown@.take(k + 1).drop_last() =~= self.unknown@.take(k as int));
            }
            if self.unknown[k] {
                if total == cap {
                    proof {
                        lemma_flags_prefix(self.unknown@, k + 1);
                    }
                    return cap + 1;
                }
                total = total + 1;
            }
            k += 1;
        }
        proof {
            assert(self.unknown@.take(k as int) =~= self.unknown@);
        }
        total
    }
}

/// The facts of a prefix of slots, one slot longer.
proof fn lemma_slot_facts_prefix(s: Seq<Slot>, i: int)
    requires
        0 <= i < s.len(),
    ensures
        slot_facts(s.take(i + 1)) == slot_facts(s.take(i)) + (if s[i].defs@.len() > 0 {
            1int
        } else {
            0int
        }) + s[i].defs@.len(),
{
    assert(s.take(i + 1).drop_last() =~= s.take(i));
    assert(s.take(i + 1).last() == s[i]);
}

/// Counting more slots never counts fewer facts.
proof fn lemma_slot_facts_monotone(s: Seq<Slot>, i: int)
    requires
        0 <= i <= s.len(),
    ensures
        slot_facts(s.take(i)) <= slot_facts(s),
    decreases s.len() - i,
{
    if i < s.len() {
        lemma_slot_facts_monotone(s, i + 1);
        lemma_slot_facts_prefix(s, i);
    } else {
        assert(s.take(i) =~= s);
    }
}

/// Flag counts are not negative.
proof fn lemma_flags_nonnegative(s: Seq<bool>)
    ensures
        flags_set(s) >= 0,
    decreases s.len(),
{
    if s.len() > 0 {
        lemma_flags_nonnegative(s.drop_last());
    }
}

/// Counting more flags never counts fewer.
proof fn lemma_flags_prefix(s: Seq<bool>, k: int)
    requires
        0 <= k <= s.len(),
    ensures
        flags_set(s.take(k)) <= flags_set(s),
    decreases s.len() - k,
{
    if k < s.len() {
        lemma_flags_prefix(s, k + 1);
        assert(s.take(k + 1).drop_last() =~= s.take(k));
    } else {
        assert(s.take(k) =~= s);
    }
}

} // verus!

verus! {

/// `below` is transitive.
pub proof fn lemma_below_trans(x: Abstract, y: Abstract, z: Abstract)
    requires
        below(x, y),
        below(y, z),
    ensures
        below(x, z),
{
    assert forall|i: int| 0 <= i < x.slots.len() implies (#[trigger] x.slots[i]).0.subset_of(z.slots[i].0) && (
    x.slots[i].1 ==> z.slots[i].1) by {
        assert(x.slots[i].0.subset_of(y.slots[i].0));
        assert(y.slots[i].0.subset_of(z.slots[i].0));
    }
}

/// `below` is reflexive.
pub proof fn lemma_below_refl(x: Abstract)
    ensures
        below(x, x),
{
}

/// A join lies above both of its parts.
pub proof fn lemma_join_above(x: Abstract, y: Abstract)
    requires
        x.slots.len() == y.slots.len(),
    ensures
        below(x, join(x, y)),
        below(y, join(x, y)),
{
    let z = join(x, y);
    assert forall|i: int| 0 <= i < x.slots.len() implies (#[trigger] x.slots[i]).0.subset_of(z.slots[i].0) && (
    x.slots[i].1 ==> z.slots[i].1) by {}
    assert forall|i: int| 0 <= i < y.slots.len() implies (#[trigger] y.slots[i]).0.subset_of(z.slots[i].0) && (
    y.slots[i].1 ==> z.slots[i].1) by {
        assert(z.slots[i] == (x.slots[i].0 + y.slots[i].0, x.slots[i].1 || y.slots[i].1));
    }
}

/// Joining something already below changes nothing.
pub proof fn lemma_join_absorbs(x: Abstract, y: Abstract)
    requires
        below(y, x),
    ensures
        join(x, y) == x,
{
    let z = join(x, y);
    assert forall|i: int| 0 <= i < x.slots.len() implies #[trigger] z.slots[i] == x.slots[i] by {
        assert(y.slots[i].0.subset_of(x.slots[i].0));
        assert(x.slots[i].0 + y.slots[i].0 =~= x.slots[i].0);
    }
    assert(z.slots =~= x.slots);
    assert(z.unknown =~= x.unknown);
}

/// Two writes in a row: the later one wins unless it leaves the slot.
pub proof fn lemma_apply_twice(w1: Option<Option<MirPoint>>, w2: Option<Option<MirPoint>>, v: (Set<MirPoint>, bool))
    ensures
        apply_write(w2, apply_write(w1, v)) == apply_write(
            match w2 {
                Some(x) => Some(x),
                None => w1,
            },
            v,
        ),
{
}

} // verus!
