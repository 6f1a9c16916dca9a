//! Configuration facts that a syntax node inherits from its ancestors' attributes, computed
//! in one preorder pass over a file, and the same facts defined by rescanning ancestors.
use crate::configuration::{any_unavailable, combined, meta_status, unavailable, MetaItem, Settings};
use crate::model::{texts, CfgStatus};
use vstd::prelude::*;

verus! {

// ---------------------------------------------------------------------------
// File shape, as plain values
// ---------------------------------------------------------------------------

/// An attribute among a node's children: its meta item (if it parsed), its simple name
/// (if it has one) and its source text.
#[derive(Debug)]
pub struct AttrItem {
    pub meta: Option<MetaItem>,
    pub name: Option<String>,
    pub text: String,
}

/// A node of a file in preorder: its parent's position, the attributes among its children
/// in order, and how many child nodes it has.
#[derive(Debug)]
pub struct TreeNode {
    pub parent: Option<usize>,
    pub attrs: Vec<AttrItem>,
    pub children: usize,
}

/// Whether every parent precedes its child, as in a preorder listing.
pub open spec fn tree_wf(t: Seq<TreeNode>) -> bool {
    forall|i: int| 0 <= i < t.len() ==> ((#[trigger] t[i]).parent matches Some(p) ==> p < i)
}

/// Whether an attribute name selects configuration (`cfg` or `cfg_attr`).
pub open spec fn cfg_named(name: Option<String>) -> bool {
    name matches Some(n) && (n@ == "cfg"@ || n@ == "cfg_attr"@)
}

/// Texts of the configuration-selecting attributes, in order.
pub open spec fn cfg_texts(attrs: Seq<AttrItem>) -> Seq<Seq<char>>
    decreases attrs.len(),
{
    if attrs.len() == 0 {
        seq![]
    } else {
        let prior = cfg_texts(attrs.drop_last());
        if cfg_named(attrs.last().name) {
            prior.push(attrs.last().text@)
        } else {
            prior
        }
    }
}

/// Meta items of attributes that parsed, in order.
pub open spec fn attr_metas(attrs: Seq<AttrItem>) -> Seq<MetaItem>
    decreases attrs.len(),
{
    if attrs.len() == 0 {
        seq![]
    } else {
        let prior = attr_metas(attrs.drop_last());
        match attrs.last().meta {
            Some(m) => prior.push(m),
            None => prior,
        }
    }
}

/// Status of a node whose inherited status is `base` after its own attributes, in order.
pub open spec fn attrs_status(st: Settings, base: CfgStatus, attrs: Seq<AttrItem>) -> CfgStatus
    decreases attrs.len(),
{
    if attrs.len() == 0 {
        base
    } else {
        let prior = attrs_status(st, base, attrs.drop_last());
        match attrs.last().meta {
            Some(m) => combined(seq![prior, meta_status(st, m)], false),
            None => prior,
        }
    }
}

// ---------------------------------------------------------------------------
// Inherited facts, one step per node
// ---------------------------------------------------------------------------

/// Status of node `i`: its parent's status, then each of its attributes.
pub open spec fn status_at(st: Settings, t: Seq<TreeNode>, i: nat) -> CfgStatus
    decreases i,
{
    let base = match t[i as int].parent {
        Some(p) => if p < i {
            status_at(st, t, p as nat)
        } else {
            CfgStatus::Active
        },
        None => CfgStatus::Active,
    };
    attrs_status(st, base, t[i as int].attrs@)
}

/// Whether an attribute of node `i` or of an ancestor may hide a macro expansion.
pub open spec fn macro_at(st: Settings, t: Seq<TreeNode>, i: nat) -> bool
    decreases i,
{
    let base = match t[i as int].parent {
        Some(p) => if p < i {
            macro_at(st, t, p as nat)
        } else {
            false
        },
        None => false,
    };
    base || any_unavailable(st, attr_metas(t[i as int].attrs@))
}

/// Texts of the configuration attributes of node `i` and its ancestors, nearest first and
/// in sibling order within a node.
pub open spec fn cfg_at(t: Seq<TreeNode>, i: nat) -> Seq<Seq<char>>
    decreases i,
{
    let rest = match t[i as int].parent {
        Some(p) => if p < i {
            cfg_at(t, p as nat)
        } else {
            seq![]
        },
        None => seq![],
    };
    cfg_texts(t[i as int].attrs@) + rest
}

// ---------------------------------------------------------------------------
// The same facts, by rescanning ancestors
// ---------------------------------------------------------------------------

/// Meta items of the attributes of node `i` and of each ancestor, nearest first.
pub open spec fn ancestor_metas(t: Seq<TreeNode>, i: nat) -> Seq<MetaItem>
    decreases i,
{
    let rest = match t[i as int].parent {
        Some(p) => if p < i {
            ancestor_metas(t, p as nat)
        } else {
            seq![]
        },
        None => seq![],
    };
    attr_metas(t[i as int].attrs@) + rest
}

/// Status of node `i` as the conjunction of every meta item on its ancestor path.
pub open spec fn rescanned_status(st: Settings, t: Seq<TreeNode>, i: nat) -> CfgStatus {
    combined(ancestor_metas(t, i).map_values(|m: MetaItem| meta_status(st, m)), false)
}

/// Whether some meta item on the ancestor path of node `i` may hide a macro expansion.
pub open spec fn rescanned_macro(st: Settings, t: Seq<TreeNode>, i: nat) -> bool {
    exists|j: int| 0 <= j < ancestor_metas(t, i).len() && unavailable(st, #[trigger] ancestor_metas(t, i)[j])
}

// ---------------------------------------------------------------------------
// Laws
// ---------------------------------------------------------------------------

proof fn lemma_contains_concat<A>(a: Seq<A>, b: Seq<A>, x: A)
    ensures
        (a + b).contains(x) <==> (a.contains(x) || b.contains(x)),
{
    if a.contains(x) {
        let j = choose|j: int| 0 <= j < a.len() && a[j] == x;
        assert((a + b)[j] == x);
    }
    if b.contains(x) {
        let j = choose|j: int| 0 <= j < b.len() && b[j] == x;
        assert((a + b)[a.len() + j] == x);
    }
    if (a + b).contains(x) {
        let j = choose|j: int| 0 <= j < (a + b).len() && (a + b)[j] == x;
        if j < a.len() {
            assert(a[j] == x);
        } else {
            assert(b[j - a.len()] == x);
        }
    }
}

/// A conjunction over a concatenation is the conjunction of the two parts.
proof fn lemma_combined_concat(a: Seq<CfgStatus>, b: Seq<CfgStatus>)
    ensures
        combined(a + b, false) == combined(seq![combined(a, false), combined(b, false)], false),
{
    lemma_contains_concat(a, b, CfgStatus::Inactive);
    lemma_contains_concat(a, b, CfgStatus::Unknown);
    let pair = seq![combined(a, false), combined(b, false)];
    assert(pair[0] == combined(a, false));
    assert(pair[1] == combined(b, false));
    assert(pair.contains(CfgStatus::Inactive) <==> (pair[0] == CfgStatus::Inactive || pair[1]
        == CfgStatus::Inactive));
    assert(pair.contains(CfgStatus::Unknown) <==> (pair[0] == CfgStatus::Unknown || pair[1]
        == CfgStatus::Unknown));
}

/// Folding a node's attributes onto `base` conjoins `base` with their meta statuses.
proof fn lemma_attrs_status(st: Settings, base: CfgStatus, attrs: Seq<AttrItem>)
    ensures
        attrs_status(st, base, attrs) == combined(
            seq![base, combined(attr_metas(attrs).map_values(|m: MetaItem| meta_status(st, m)), false)],
            false,
        ),
    decreases attrs.len(),
{
    let f = |m: MetaItem| meta_status(st, m);
    if attrs.len() == 0 {
        assert(attr_metas(attrs).map_values(f) =~= Seq::<CfgStatus>::empty());
        let pair = seq![base, CfgStatus::Active];
        assert(pair[0] == base && pair[1] == CfgStatus::Active);
        assert(pair.contains(CfgStatus::Inactive) <==> base == CfgStatus::Inactive);
        assert(pair.contains(CfgStatus::Unknown) <==> base == CfgStatus::Unknown);
    } else {
        lemma_attrs_status(st, base, attrs.drop_last());
        let prior_metas = attr_metas(attrs.drop_last());
        match attrs.last().meta {
            Some(m) => {
                assert(attr_metas(attrs).map_values(f) =~= prior_metas.map_values(f) + seq![
                    meta_status(st, m),
                ]);
                lemma_combined_concat(prior_metas.map_values(f), seq![meta_status(st, m)]);
                let one = seq![meta_status(st, m)];
                assert(one[0] == meta_status(st, m));
                assert(one.contains(CfgStatus::Inactive) <==> meta_status(st, m)
                    == CfgStatus::Inactive);
                assert(one.contains(CfgStatus::Unknown) <==> meta_status(st, m)
                    == CfgStatus::Unknown);
            },
            None => {
                assert(attr_metas(attrs) == prior_metas);
            },
        }
    }
}

/// The one-pass status of every node equals the conjunction over its ancestor path.
pub proof fn lemma_status_matches_rescan(st: Settings, t: Seq<TreeNode>, i: nat)
    requires
        i < t.len(),
        tree_wf(t),
    ensures
        status_at(st, t, i) == rescanned_status(st, t, i),
    decreases i,
{
    let f = |m: MetaItem| meta_status(st, m);
    let own = attr_metas(t[i as int].attrs@);
    lemma_attrs_status(st, match t[i as int].parent {
        Some(p) => if p < i {
            status_at(st, t, p as nat)
        } else {
            CfgStatus::Active
        },
        None => CfgStatus::Active,
    }, t[i as int].attrs@);
    match t[i as int].parent {
        Some(p) => {
            assert(p < i);
            lemma_status_matches_rescan(st, t, p as nat);
            let rest = ancestor_metas(t, p as nat);
            assert(ancestor_metas(t, i).map_values(f) =~= own.map_values(f) + rest.map_values(f));
            lemma_combined_concat(own.map_values(f), rest.map_values(f));
            let x = combined(rest.map_values(f), false);
            let y = combined(own.map_values(f), false);
            let p1 = seq![x, y];
            let p2 = seq![y, x];
            assert(p1[0] == x && p1[1] == y && p2[0] == y && p2[1] == x);
            assert(p1.contains(CfgStatus::Inactive) <==> p2.contains(CfgStatus::Inactive));
            assert(p1.contains(CfgStatus::Unknown) <==> p2.contains(CfgStatus::Unknown));
        },
        None => {
            assert(ancestor_metas(t, i).map_values(f) =~= own.map_values(f));
        },
    }
}

proof fn lemma_any_unavailable(st: Settings, s: Seq<MetaItem>)
    ensures
        any_unavailable(st, s) <==> exists|j: int| 0 <= j < s.len() && unavailable(st, #[trigger] s[j]),
    decreases s.len(),
{
    if s.len() > 0 {
        lemma_any_unavailable(st, s.drop_last());
        if any_unavailable(st, s.drop_last()) {
            let j = choose|j: int| 0 <= j < s.drop_last().len() && unavailable(st, #[trigger] s.drop_last()[j]);
            assert(s[j] == s.drop_last()[j]);
        }
        if exists|j: int| 0 <= j < s.len() && unavailable(st, #[trigger] s[j]) {
            let j = choose|j: int| 0 <= j < s.len() && unavailable(st, #[trigger] s[j]);
            if j < s.len() - 1 {
                assert(s.drop_last()[j] == s[j]);
            }
        }
    }
}

/// The one-pass macro flag of every node equals a rescan of its ancestor path.
pub proof fn lemma_macro_matches_rescan(st: Settings, t: Seq<TreeNode>, i: nat)
    requires
        i < t.len(),
        tree_wf(t),
    ensures
        macro_at(st, t, i) == rescanned_macro(st, t, i),
    decreases i,
{
    let own = attr_metas(t[i as int].attrs@);
    lemma_any_unavailable(st, own);
    match t[i as int].parent {
        Some(p) => {
            assert(p < i);
            lemma_macro_matches_rescan(st, t, p as nat);
            let rest = ancestor_metas(t, p as nat);
            let all = ancestor_metas(t, i);
            assert(all == own + rest);
            if macro_at(st, t, i) {
                if macro_at(st, t, p as nat) {
                    let j = choose|j: int| 0 <= j < rest.len() && unavailable(st, #[trigger] rest[j]);
                    assert(all[own.len() + j] == rest[j]);
                } else {
                    let j = choose|j: int| 0 <= j < own.len() && unavailable(st, #[trigger] own[j]);
                    assert(all[j] == own[j]);
                }
            }
            if rescanned_macro(st, t, i) {
                let j = choose|j: int| 0 <= j < all.len() && unavailable(st, #[trigger] all[j]);
                if j < own.len() {
                    assert(own[j] == all[j]);
                } else {
                    assert(rest[j - own.len()] == all[j]);
                }
            }
        },
        None => {
            assert(ancestor_metas(t, i) =~= own);
        },
    }
}

// ---------------------------------------------------------------------------
// The one-pass computation
// ---------------------------------------------------------------------------

/// What a node inherits: its status, whether a macro may hide it, and the newest entry of
/// its chain of configuration attributes.
#[derive(Debug, Clone, Copy)]
pub struct InheritedSettings {
    pub status: CfgStatus,
    pub macro_unavailable: bool,
    pub cfg: Option<usize>,
}

impl Default for InheritedSettings {
    fn default() -> (r: Self)
        ensures
            r.status == CfgStatus::Active,
            !r.macro_unavailable,
            r.cfg is None,
    {
        InheritedSettings { status: CfgStatus::Active, macro_unavailable: false, cfg: None }
    }
}

/// The configuration attributes of one node, linked to the entry its parent inherits, so
/// that nested scopes share their ancestors' entries.
#[derive(Debug)]
pub struct CfgAttributes {
    pub attributes: Vec<String>,
    pub parent: Option<usize>,
}

/// Texts along a chain of entries from `start`, nearest first. A link that does not point
/// to an earlier entry ends the chain.
pub open spec fn chain_texts(e: Seq<CfgAttributes>, start: Option<usize>) -> Seq<Seq<char>>
    decreases (match start {
        Some(i) => i + 1,
        None => 0,
    }),
{
    match start {
        None => seq![],
        Some(i) => if i < e.len() {
            texts(e[i as int].attributes@) + match e[i as int].parent {
                Some(p) => if p < i {
                    chain_texts(e, Some(p))
                } else {
                    seq![]
                },
                None => seq![],
            }
        } else {
            seq![]
        },
    }
}

/// Whether every link of a chain points to an earlier entry.
pub open spec fn chain_wf(e: Seq<CfgAttributes>) -> bool {
    forall|k: int| 0 <= k < e.len() ==> ((#[trigger] e[k]).parent matches Some(p) ==> p < k)
}

proof fn lemma_chain_push(e: Seq<CfgAttributes>, x: CfgAttributes, start: Option<usize>)
    requires
        start matches Some(i) ==> i < e.len(),
    ensures
        chain_texts(e.push(x), start) == chain_texts(e, start),
    decreases (match start {
        Some(i) => i + 1,
        None => 0,
    }),
{
    match start {
        None => {},
        Some(i) => {
            assert(e.push(x)[i as int] == e[i as int]);
            match e[i as int].parent {
                Some(p) => if p < i {
                    lemma_chain_push(e, x, Some(p));
                },
                None => {},
            }
        },
    }
}

/// Whether an attribute name selects configuration.
fn is_cfg_name(name: &Option<String>) -> (r: bool)
    ensures
        r == cfg_named(*name),
{
    match name {
        Some(n) => crate::text::text_is(n.as_str(), "cfg") || crate::text::text_is(
            n.as_str(),
            "cfg_attr",
        ),
        None => false,
    }
}

/// Inherited facts of every node of a file given in preorder, and the shared chain of
/// configuration attributes: node `i` gets `status_at`, `macro_at` and, along its chain,
/// `cfg_at`.
pub fn inherit_all(tree: &Vec<TreeNode>, settings: &Settings) -> (r: (
    Vec<InheritedSettings>,
    Vec<CfgAttributes>,
))
    requires
        tree_wf(tree@),
    ensures
        r.0@.len() == tree@.len(),
        chain_wf(r.1@),
        forall|k: int| 0 <= k < r.1@.len() ==> (#[trigger] r.1@[k]).attributes@.len() > 0,
        forall|i: int|
            0 <= i < tree@.len() ==> {
                &&& (#[trigger] r.0@[i]).status == status_at(*settings, tree@, i as nat)
                &&& r.0@[i].macro_unavailable == macro_at(*settings, tree@, i as nat)
                &&& chain_texts(r.1@, r.0@[i].cfg) == cfg_at(tree@, i as nat)
                &&& (r.0@[i].cfg matches Some(c) ==> c < r.1@.len())
            },
{
    let mut result: Vec<InheritedSettings> = Vec::new();
    let mut chain: Vec<CfgAttributes> = Vec::new();
    let mut i: usize = 0;
    while i < tree.len()
        invariant
            tree_wf(tree@),
            i <= tree@.len(),
            result@.len() == i,
            chain_wf(chain@),
            forall|k: int| 0 <= k < chain@.len() ==> (#[trigger] chain@[k]).attributes@.len() > 0,
            forall|k: int|
                0 <= k < i ==> {
                    &&& (#[trigger] result@[k]).status == status_at(*settings, tree@, k as nat)
                    &&& result@[k].macro_unavailable == macro_at(*settings, tree@, k as nat)
                    &&& chain_texts(chain@, result@[k].cfg) == cfg_at(tree@, k as nat)
                    &&& (result@[k].cfg matches Some(c) ==> c < chain@.len())
                },
        decreases tree.len() - i,
    {
        let node = &tree[i];
        let base = match node.parent {
            Some(p) => if p < i {
                result[p]
            } else {
                InheritedSettings::default()
            },
            None => InheritedSettings::default(),
        };
        let ghost rest: Seq<Seq<char>> = match node.parent {
            Some(p) => if p < i {
                cfg_at(tree@, p as nat)
            } else {
                seq![]
            },
            None => seq![],
        };
        let ghost attrs = node.attrs@;
        let mut status = base.status;
        let mut hidden = base.macro_unavailable;
        let mut attributes: Vec<String> = Vec::new();
        let mut j: usize = 0;
        while j < node.attrs.len()
            invariant
                attrs == node.attrs@,
                j <= attrs.len(),
                status == attrs_status(*settings, base.status, attrs.take(j as int)),
                hidden == (base.macro_unavailable || any_unavailable(
                    *settings,
                    attr_metas(attrs.take(j as int)),
                )),
                texts(attributes@) == cfg_texts(attrs.take(j as int)),
            decreases attrs.len() - j,
        {
            let attr = &node.attrs[j];
            proof {
                assert(attrs.take(j + 1).drop_last() =~= attrs.take(j as int));
                assert(attrs.take(j + 1).last() == attrs[j as int]);
            }
            match &attr.meta {
                Some(m) => {
                    let own = settings.meta_status(m);
                    let pair = vec![status, own];
                    status = crate::configuration::combine(&pair, false);
                    let unavailable_here = settings.attribute_unavailable(m);
                    proof {
                        assert(attr_metas(attrs.take(j + 1)) =~= attr_metas(attrs.take(j as int)).push(*m));
                        assert(attr_metas(attrs.take(j + 1)).drop_last() =~= attr_metas(attrs.take(j as int)));
                        assert(pair@ =~= seq![attrs_status(*settings, base.status, attrs.take(j as int)), meta_status(*settings, *m)]);
                    }
                    hidden = hidden || unavailable_here;
                },
                None => {},
            }
            if is_cfg_name(&attr.name) {
                attributes.push(attr.text.clone());
                proof {
                    assert(texts(attributes@) =~= cfg_texts(attrs.take(j as int)).push(attr.text@));
                }
            }
            j += 1;
        }
        proof {
            assert(attrs.take(j as int) =~= attrs);
        }
        let mut cfg = base.cfg;
        if attributes.len() > 0 {
            let ghost before = chain@;
            let ghost own_texts = texts(attributes@);
            chain.push(CfgAttributes { attributes, parent: base.cfg });
            proof {
                assert forall|k: int| 0 <= k < i implies chain_texts(chain@, #[trigger] result@[k].cfg)
                    == chain_texts(before, result@[k].cfg) by {
                    lemma_chain_push(before, chain@.last(), result@[k].cfg);
                }
                lemma_chain_push(before, chain@.last(), base.cfg);
                assert(chain@[before.len() as int].attributes@ == chain@.last().attributes@);
            }
            cfg = Some(chain.len() - 1);
        }
        let entry = InheritedSettings { status, macro_unavailable: hidden, cfg };
        result.push(entry);
        proof {
            assert(result@[i as int] == entry);
        }
        i += 1;
    }
    (result, chain)
}

} // verus!
