//! Plain fact types that every analysis reads: coverage status, unknown reasons
//! and configuration status.
use vstd::prelude::*;

verus! {

/// How completely a set of facts describes its subject.
#[derive(Debug, Clone, Copy, PartialEq, Eq, Structural)]
pub enum Status {
    Complete,
    Partial,
    Failed,
    Unavailable,
}

/// Why a fact is incomplete. Reason records are kept sorted in this declaration order.
#[derive(Debug, Clone, Copy, PartialEq, Eq, Structural)]
pub enum UnknownReason {
    AnalysisFailed,
    ArtifactMismatch,
    BudgetExhausted,
    CfgUnknown,
    ExternalBoundary,
    IndirectTargetUnknown,
    MacroUnavailable,
    MissingDependency,
    SyntaxOnly,
    UnsupportedConstruct,
}

/// Whether syntax is known to be compiled in the selected configuration.
#[derive(Debug, Clone, Copy, PartialEq, Eq, Structural)]
pub enum CfgStatus {
    Active,
    Inactive,
    Unknown,
}

/// Number of times one unknown reason was recorded.
#[derive(Debug, Clone, Copy, PartialEq, Eq, Structural)]
pub struct ReasonCount {
    pub reason: UnknownReason,
    pub count: u32,
}

/// Completeness of a fact set: a status, counted reasons and human-readable limitations.
#[derive(Debug, Clone)]
pub struct Coverage {
    pub status: Status,
    pub reasons: Vec<ReasonCount>,
    pub limitations: Vec<String>,
}

/// Position of a reason in the canonical reason order.
pub open spec fn reason_rank(reason: UnknownReason) -> int {
    match reason {
        UnknownReason::AnalysisFailed => 0,
        UnknownReason::ArtifactMismatch => 1,
        UnknownReason::BudgetExhausted => 2,
        UnknownReason::CfgUnknown => 3,
        UnknownReason::ExternalBoundary => 4,
        UnknownReason::IndirectTargetUnknown => 5,
        UnknownReason::MacroUnavailable => 6,
        UnknownReason::MissingDependency => 7,
        UnknownReason::SyntaxOnly => 8,
        UnknownReason::UnsupportedConstruct => 9,
    }
}

/// Number of distinct reasons.
pub open spec fn reason_ranks() -> int {
    10
}

pub fn rank_of(reason: UnknownReason) -> (r: u8)
    ensures
        r as int == reason_rank(reason),
{
    match reason {
        UnknownReason::AnalysisFailed => 0,
        UnknownReason::ArtifactMismatch => 1,
        UnknownReason::BudgetExhausted => 2,
        UnknownReason::CfgUnknown => 3,
        UnknownReason::ExternalBoundary => 4,
        UnknownReason::IndirectTargetUnknown => 5,
        UnknownReason::MacroUnavailable => 6,
        UnknownReason::MissingDependency => 7,
        UnknownReason::SyntaxOnly => 8,
        UnknownReason::UnsupportedConstruct => 9,
    }
}

/// The records of `s` whose reason has rank `k`, in their original order.
pub open spec fn with_rank(s: Seq<ReasonCount>, k: int) -> Seq<ReasonCount> {
    s.filter(|x: ReasonCount| reason_rank(x.reason) == k)
}

/// The records of `s` with rank below `k`, grouped by rank, each group in original order.
pub open spec fn ranks_below(s: Seq<ReasonCount>, k: int) -> Seq<ReasonCount>
    decreases k,
{
    if k <= 0 {
        Seq::empty()
    } else {
        ranks_below(s, k - 1) + with_rank(s, k - 1)
    }
}

/// Stable sort of reason records by reason order.
pub open spec fn sort_by_reason(s: Seq<ReasonCount>) -> Seq<ReasonCount> {
    ranks_below(s, reason_ranks())
}

/// Index of the first record for `reason`, or -1 when there is none.
pub open spec fn first_reason(s: Seq<ReasonCount>, reason: UnknownReason) -> int
    decreases s.len(),
{
    if s.len() == 0 {
        -1
    } else if s[0].reason == reason {
        0
    } else {
        let k = first_reason(s.drop_first(), reason);
        if k < 0 {
            -1
        } else {
            k + 1
        }
    }
}

/// Records after counting one more occurrence of `reason` (saturating at `u32::MAX`).
pub open spec fn bump_reason(s: Seq<ReasonCount>, reason: UnknownReason) -> Seq<ReasonCount> {
    let i = first_reason(s, reason);
    if i < 0 {
        s.push(ReasonCount { reason, count: 1 })
    } else {
        s.update(
            i,
            ReasonCount {
                reason,
                count: if s[i].count == u32::MAX {
                    u32::MAX
                } else {
                    (s[i].count + 1) as u32
                },
            },
        )
    }
}

/// The character content of a list of strings.
pub open spec fn texts(v: Seq<String>) -> Seq<Seq<char>> {
    v.map_values(|s: String| s@)
}

/// Limitations after recording `message` once.
pub open spec fn add_limitation(v: Seq<Seq<char>>, message: Seq<char>) -> Seq<Seq<char>> {
    if v.contains(message) {
        v
    } else {
        v.push(message)
    }
}

/// Coverage status after a gap is recorded: complete coverage becomes partial.
pub open spec fn degrade(status: Status) -> Status {
    if status == Status::Complete {
        Status::Partial
    } else {
        status
    }
}

/// The observable content of a coverage record.
pub open spec fn coverage_view(c: Coverage) -> (Status, Seq<ReasonCount>, Seq<Seq<char>>) {
    (c.status, c.reasons@, texts(c.limitations@))
}

/// Coverage content after recording one gap.
#[verifier::opaque]
pub open spec fn with_gap(
    m: (Status, Seq<ReasonCount>, Seq<Seq<char>>),
    reason: UnknownReason,
    message: Seq<char>,
) -> (Status, Seq<ReasonCount>, Seq<Seq<char>>) {
    (degrade(m.0), sort_by_reason(bump_reason(m.1, reason)), add_limitation(m.2, message))
}

/// Coverage content after recording a list of gaps in order.
pub open spec fn with_gaps(
    m: (Status, Seq<ReasonCount>, Seq<Seq<char>>),
    gaps: Seq<(UnknownReason, Seq<char>)>,
) -> (Status, Seq<ReasonCount>, Seq<Seq<char>>)
    decreases gaps.len(),
{
    if gaps.len() == 0 {
        m
    } else {
        with_gap(with_gaps(m, gaps.drop_last()), gaps.last().0, gaps.last().1)
    }
}

pub proof fn lemma_with_gaps_push(
    m: (Status, Seq<ReasonCount>, Seq<Seq<char>>),
    gaps: Seq<(UnknownReason, Seq<char>)>,
    reason: UnknownReason,
    message: Seq<char>,
)
    ensures
        with_gaps(m, gaps.push((reason, message))) == with_gap(with_gaps(m, gaps), reason, message),
{
    assert(gaps.push((reason, message)).drop_last() =~= gaps);
}

pub proof fn lemma_with_gaps_concat(
    m: (Status, Seq<ReasonCount>, Seq<Seq<char>>),
    a: Seq<(UnknownReason, Seq<char>)>,
    b: Seq<(UnknownReason, Seq<char>)>,
)
    ensures
        with_gaps(m, a + b) == with_gaps(with_gaps(m, a), b),
    decreases b.len(),
{
    if b.len() == 0 {
        assert(a + b =~= a);
    } else {
        lemma_with_gaps_concat(m, a, b.drop_last());
        assert((a + b).drop_last() =~= a + b.drop_last());
        assert((a + b).last() == b.last());
    }
}

/// Sorting a single reason record leaves it unchanged.
pub proof fn lemma_sort_single(x: ReasonCount)
    ensures
        sort_by_reason(seq![x]) == seq![x],
{
    let s = seq![x];
    assert forall|k: int| #[trigger] with_rank(s, k) == (if reason_rank(x.reason) == k {
        s
    } else {
        Seq::<ReasonCount>::empty()
    }) by {
        reveal(Seq::filter);
        assert(s.drop_last() =~= Seq::<ReasonCount>::empty());
        assert(Seq::<ReasonCount>::empty().filter(|y: ReasonCount| reason_rank(y.reason) == k)
            =~= Seq::<ReasonCount>::empty());
    }
    lemma_ranks_below_single(x, 10);
}

proof fn lemma_ranks_below_single(x: ReasonCount, k: int)
    requires
        forall|j: int| #[trigger] with_rank(seq![x], j) == (if reason_rank(x.reason) == j {
            seq![x]
        } else {
            Seq::<ReasonCount>::empty()
        }),
    ensures
        ranks_below(seq![x], k) == (if 0 <= reason_rank(x.reason) < k {
            seq![x]
        } else {
            Seq::<ReasonCount>::empty()
        }),
    decreases k,
{
    if k > 0 {
        lemma_ranks_below_single(x, k - 1);
        assert(with_rank(seq![x], k - 1) == (if reason_rank(x.reason) == k - 1 {
            seq![x]
        } else {
            Seq::<ReasonCount>::empty()
        }));
        if reason_rank(x.reason) == k - 1 {
            assert(Seq::<ReasonCount>::empty() + seq![x] =~= seq![x]);
        } else if 0 <= reason_rank(x.reason) < k - 1 {
            assert(seq![x] + Seq::<ReasonCount>::empty() =~= seq![x]);
        } else {
            assert(Seq::<ReasonCount>::empty() + Seq::<ReasonCount>::empty() =~= Seq::<
                ReasonCount,
            >::empty());
        }
    }
}

pub proof fn lemma_first_reason_bounds(s: Seq<ReasonCount>, reason: UnknownReason)
    ensures
        -1 <= first_reason(s, reason) < s.len(),
        first_reason(s, reason) >= 0 ==> s[first_reason(s, reason)].reason == reason,
        first_reason(s, reason) < 0 ==> forall|j: int| 0 <= j < s.len() ==> s[j].reason != reason,
        forall|j: int| 0 <= j < first_reason(s, reason) ==> s[j].reason != reason,
    decreases s.len(),
{
    if s.len() > 0 && s[0].reason != reason {
        lemma_first_reason_bounds(s.drop_first(), reason);
        assert forall|j: int| 1 <= j < s.len() implies s[j] == s.drop_first()[j - 1] by {}
    }
}

/// The first index whose reason matches, found by a forward scan.
fn find_reason(v: &Vec<ReasonCount>, reason: UnknownReason) -> (r: Option<usize>)
    ensures
        match r {
            Some(i) => i as int == first_reason(v@, reason),
            None => first_reason(v@, reason) < 0,
        },
{
    proof {
        lemma_first_reason_bounds(v@, reason);
    }
    let mut i: usize = 0;
    while i < v.len()
        invariant
            i <= v.len(),
            forall|j: int| 0 <= j < i ==> v@[j].reason != reason,
            -1 <= first_reason(v@, reason) < v@.len(),
            first_reason(v@, reason) >= 0 ==> v@[first_reason(v@, reason)].reason == reason,
            first_reason(v@, reason) < 0 ==> forall|j: int|
                0 <= j < v@.len() ==> v@[j].reason != reason,
            forall|j: int| 0 <= j < first_reason(v@, reason) ==> v@[j].reason != reason,
        decreases v.len() - i,
    {
        if v[i].reason == reason {
            proof {
                assert(v@[i as int].reason == reason);
                if first_reason(v@, reason) < i as int && first_reason(v@, reason) >= 0 {
                    assert(v@[first_reason(v@, reason)].reason == reason);
                }
            }
            return Some(i);
        }
        i += 1;
    }
    None
}

/// Groups reason records by reason order, keeping the order within each group.
pub fn sort_reasons(v: &Vec<ReasonCount>) -> (r: Vec<ReasonCount>)
    ensures
        r@ == sort_by_reason(v@),
{
    let mut out: Vec<ReasonCount> = Vec::new();
    let mut k: u8 = 0;
    while k < 10
        invariant
            k <= 10,
            out@ == ranks_below(v@, k as int),
        decreases 10 - k,
    {
        let mut j: usize = 0;
        while j < v.len()
            invariant
                j <= v.len(),
                k < 10,
                out@ == ranks_below(v@, k as int) + with_rank(v@.take(j as int), k as int),
            decreases v.len() - j,
        {
            let item = v[j];
            let rank = rank_of(item.reason);
            proof {
                assert(v@.take(j as int + 1).drop_last() =~= v@.take(j as int));
                assert(v@.take(j as int + 1).last() == item);
                reveal(Seq::filter);
            }
            if rank == k {
                out.push(item);
            }
            proof {
                let p = |x: ReasonCount| reason_rank(x.reason) == k as int;
                assert(with_rank(v@.take(j as int + 1), k as int) == v@.take(j as int + 1).filter(p));
                assert(with_rank(v@.take(j as int), k as int) == v@.take(j as int).filter(p));
            }
            j += 1;
        }
        proof {
            assert(v@.take(v@.len() as int) =~= v@);
        }
        k += 1;
    }
    out
}

impl Coverage {
    /// A copy with the same status, reasons and limitations.
    pub fn copy(&self) -> (c: Coverage)
        ensures
            c.status == self.status,
            c.reasons@ == self.reasons@,
            c.limitations@ == self.limitations@,
    {
        let mut reasons: Vec<ReasonCount> = Vec::new();
        let mut i: usize = 0;
        while i < self.reasons.len()
            invariant
                i <= self.reasons@.len(),
                reasons@ == self.reasons@.take(i as int),
            decreases self.reasons.len() - i,
        {
            reasons.push(self.reasons[i]);
            proof {
                assert(reasons@ =~= self.reasons@.take(i + 1));
            }
            i += 1;
        }
        let mut limitations: Vec<String> = Vec::new();
        let mut j: usize = 0;
        while j < self.limitations.len()
            invariant
                j <= self.limitations@.len(),
                limitations@ == self.limitations@.take(j as int),
            decreases self.limitations.len() - j,
        {
            limitations.push(self.limitations[j].clone());
            proof {
                assert(limitations@ =~= self.limitations@.take(j + 1));
            }
            j += 1;
        }
        proof {
            assert(reasons@ =~= self.reasons@);
            assert(limitations@ =~= self.limitations@);
        }
        Coverage { status: self.status, reasons, limitations }
    }

    /// Coverage with no known gaps.
    pub fn complete() -> (c: Coverage)
        ensures
            c.status == Status::Complete,
            c.reasons@.len() == 0,
            c.limitations@.len() == 0,
    {
        Coverage { status: Status::Complete, reasons: Vec::new(), limitations: Vec::new() }
    }

    /// Partial coverage with one reason and its limitation.
    pub fn partial(reason: UnknownReason, limitation: &str) -> (c: Coverage)
        ensures
            c.status == Status::Partial,
            c.reasons@ == seq![ReasonCount { reason, count: 1 }],
            texts(c.limitations@) == seq![limitation@],
    {
        let mut reasons = Vec::new();
        reasons.push(ReasonCount { reason, count: 1 });
        let mut limitations = Vec::new();
        limitations.push(limitation.to_string());
        proof {
            assert(texts(limitations@) =~= seq![limitation@]);
        }
        Coverage { status: Status::Partial, reasons, limitations }
    }

    /// Records one more gap: complete coverage becomes partial, the reason is counted
    /// (saturating), the limitation is kept once, and reasons are kept in reason order.
    pub fn record_gap(&mut self, reason: UnknownReason, message: &str)
        ensures
            final(self).status == degrade(old(self).status),
            final(self).reasons@ == sort_by_reason(bump_reason(old(self).reasons@, reason)),
            texts(final(self).limitations@) == add_limitation(
                texts(old(self).limitations@),
                message@,
            ),
            coverage_view(*final(self)) == with_gap(coverage_view(*old(self)), reason, message@),
    {
        proof {
            reveal(with_gap);
        }
        if self.status == Status::Complete {
            self.status = Status::Partial;
        }
        proof {
            lemma_first_reason_bounds(self.reasons@, reason);
        }
        match find_reason(&self.reasons, reason) {
            Some(i) => {
                let current = self.reasons[i].count;
                let next = if current == u32::MAX {
                    u32::MAX
                } else {
                    current + 1
                };
                self.reasons.set(i, ReasonCount { reason, count: next });
            },
            None => {
                self.reasons.push(ReasonCount { reason, count: 1 });
            },
        }
        let sorted = sort_reasons(&self.reasons);
        self.reasons = sorted;
        let text = message.to_string();
        let ghost before = texts(self.limitations@);
        let mut present = false;
        let mut i: usize = 0;
        while i < self.limitations.len()
            invariant
                i <= self.limitations.len(),
                before == texts(self.limitations@),
                text@ == message@,
                present <==> exists|j: int| 0 <= j < i && before[j] == message@,
            decreases self.limitations.len() - i,
        {
            proof {
                assert(before[i as int] == self.limitations@[i as int]@);
            }
            if self.limitations[i] == text {
                present = true;
            }
            i += 1;
        }
        proof {
            if before.contains(message@) {
                let j = choose|j: int| 0 <= j < before.len() && before[j] == message@;
                assert(present);
            }
        }
        if !present {
            self.limitations.push(text);
            proof {
                assert(texts(self.limitations@) =~= before.push(message@));
            }
        }
    }
}

/// After a gap is recorded, its message is among the limitations.
pub proof fn lemma_gap_recorded(
    m: (Status, Seq<ReasonCount>, Seq<Seq<char>>),
    reason: UnknownReason,
    message: Seq<char>,
)
    ensures
        with_gap(m, reason, message).2.contains(message),
{
    reveal(with_gap);
    if !m.2.contains(message) {
        assert(m.2.push(message)[m.2.len() as int] == message);
    }
}

} // verus!
