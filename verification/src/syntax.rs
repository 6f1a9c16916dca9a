//! Reading attributes out of a parsed Rust syntax tree, and the per-file cache of
//! inherited configuration facts built from it.
use crate::configuration::{
    any_unavailable, combine, combined, meta_status, AtomItem, MetaItem, Predicate, Settings,
};
use crate::inheritance::{
    cfg_at, chain_texts, inherit_all, macro_at, status_at, tree_wf, AttrItem, CfgAttributes,
    InheritedSettings, TreeNode,
};
use crate::model::{texts, CfgStatus};
use ra_ap_syntax::{ast, AstNode, AstToken, SyntaxNode};
use vstd::prelude::*;

verus! {

// ---------------------------------------------------------------------------
// Outside syntax types
// ---------------------------------------------------------------------------

/// A node of a parsed syntax tree. Two handles are the same node when they denote the
/// same position of the same tree.
#[verifier::external_body]
pub struct Node {
    raw: SyntaxNode,
}

#[verifier::external_type_specification]
#[verifier::external_body]
pub struct ExAttr(ast::Attr);

#[verifier::external_type_specification]
#[verifier::external_body]
pub struct ExMeta(ast::Meta);

#[verifier::external_type_specification]
#[verifier::external_body]
pub struct ExCfgMeta(ast::CfgMeta);

#[verifier::external_type_specification]
#[verifier::external_body]
pub struct ExCfgAttrMeta(ast::CfgAttrMeta);

#[verifier::external_type_specification]
#[verifier::external_body]
pub struct ExUnsafeMeta(ast::UnsafeMeta);

#[verifier::external_type_specification]
#[verifier::external_body]
pub struct ExCfgPredicate(ast::CfgPredicate);

#[verifier::external_type_specification]
#[verifier::external_body]
pub struct ExCfgAtom(ast::CfgAtom);

#[verifier::external_type_specification]
#[verifier::external_body]
pub struct ExCfgComposite(ast::CfgComposite);

#[verifier::external_type_specification]
#[verifier::external_body]
pub struct ExString(ast::String);

/// The shape of a meta item.
enum MetaKind {
    Cfg(ast::CfgMeta),
    CfgAttr(ast::CfgAttrMeta),
    Unsafe(ast::UnsafeMeta),
    Other(ast::Meta),
}

/// The shape of a `cfg` predicate.
enum PredicateKind {
    Atom(ast::CfgAtom),
    Composite(ast::CfgComposite),
}

// ---------------------------------------------------------------------------
// Calls into the syntax crate
// ---------------------------------------------------------------------------

/// `SourceFile::parse` with the 2024 edition, then its root node.
#[verifier::external_body]
fn parse_text(text: &str) -> (r: Node) {
    Node { raw: ast::SourceFile::parse(text, ra_ap_syntax::Edition::Edition2024).syntax_node() }
}

/// `SyntaxNode::children`: the child nodes, in order.
#[verifier::external_body]
fn node_children(node: &Node) -> (r: Vec<Node>) {
    node.raw.children().map(|raw| Node { raw }).collect()
}

/// `SyntaxNode::ancestors`: the node itself, then each enclosing node outward. The
/// contract states that the walk starts at the node itself (`iter::successors` from a
/// clone of it); which nodes enclose it is left unsaid.
#[verifier::external_body]
fn node_ancestors(node: &Node) -> (r: Vec<Node>)
    ensures
        r@.len() >= 1,
        r@[0] == *node,
{
    node.raw.ancestors().map(|raw| Node { raw }).collect()
}

/// `SyntaxNode::descendants`: the node and every node below it, in preorder. The contract
/// states that the preorder starts at the node itself; which nodes lie below it is left
/// unsaid.
#[verifier::external_body]
fn node_descendants(node: &Node) -> (r: Vec<Node>)
    ensures
        r@.len() >= 1,
        r@[0] == *node,
{
    node.raw.descendants().map(|raw| Node { raw }).collect()
}

/// `SyntaxNode::eq`: whether two handles denote the same node (same green node at the same
/// offset). A `Node` stands for the node it denotes, so the contract equates the result
/// with equality of the two handles.
#[verifier::external_body]
fn same_node(a: &Node, b: &Node) -> (r: bool)
    ensures
        r == (*a == *b),
{
    a.raw == b.raw
}

/// `SyntaxNode::clone`: another handle to the same node, which the contract equates with
/// the original handle.
#[verifier::external_body]
fn node_handle(node: &Node) -> (r: Node)
    ensures
        r == *node,
{
    Node { raw: node.raw.clone() }
}

/// `Attr::cast`: the node as an attribute, when it is one.
#[verifier::external_body]
fn attr_cast(node: &Node) -> (r: Option<ast::Attr>) {
    ast::Attr::cast(node.raw.clone())
}

/// `Attr::meta`: the attribute's meta item, when it parsed.
#[verifier::external_body]
fn attr_meta(attr: &ast::Attr) -> (r: Option<ast::Meta>) {
    attr.meta()
}

/// `Attr::simple_name`: the attribute's single-segment name, when it has one.
#[verifier::external_body]
fn attr_simple_name(attr: &ast::Attr) -> (r: Option<String>) {
    match attr.simple_name() {
        Some(name) => Some(name.to_string()),
        None => None,
    }
}

/// `Attr::to_string`: the attribute's source text.
#[verifier::external_body]
fn attr_text(attr: &ast::Attr) -> (r: String) {
    attr.to_string()
}

/// Tells the variants of `ast::Meta` apart.
#[verifier::external_body]
fn meta_kind(meta: ast::Meta) -> (r: MetaKind) {
    match meta {
        ast::Meta::CfgMeta(m) => MetaKind::Cfg(m),
        ast::Meta::CfgAttrMeta(m) => MetaKind::CfgAttr(m),
        ast::Meta::UnsafeMeta(m) => MetaKind::Unsafe(m),
        other => MetaKind::Other(other),
    }
}

/// `CfgMeta::cfg_predicate`.
#[verifier::external_body]
fn cfg_meta_predicate(meta: &ast::CfgMeta) -> (r: Option<ast::CfgPredicate>) {
    meta.cfg_predicate()
}

/// `CfgAttrMeta::cfg_predicate`.
#[verifier::external_body]
fn cfg_attr_predicate(meta: &ast::CfgAttrMeta) -> (r: Option<ast::CfgPredicate>) {
    meta.cfg_predicate()
}

/// `CfgAttrMeta::metas`: the attributes that the predicate guards, in order.
#[verifier::external_body]
fn cfg_attr_metas(meta: &ast::CfgAttrMeta) -> (r: Vec<ast::Meta>) {
    meta.metas().collect()
}

/// `UnsafeMeta::meta`: the wrapped meta item.
#[verifier::external_body]
fn unsafe_inner(meta: &ast::UnsafeMeta) -> (r: Option<ast::Meta>) {
    meta.meta()
}

/// `Meta::simple_name`.
#[verifier::external_body]
fn meta_simple_name(meta: &ast::Meta) -> (r: Option<String>) {
    match meta.simple_name() {
        Some(name) => Some(name.to_string()),
        None => None,
    }
}

/// Tells the variants of `ast::CfgPredicate` apart.
#[verifier::external_body]
fn predicate_kind(predicate: ast::CfgPredicate) -> (r: PredicateKind) {
    match predicate {
        ast::CfgPredicate::CfgAtom(a) => PredicateKind::Atom(a),
        ast::CfgPredicate::CfgComposite(c) => PredicateKind::Composite(c),
    }
}

/// `CfgAtom::true_token` is present.
#[verifier::external_body]
fn atom_true(atom: &ast::CfgAtom) -> (r: bool) {
    atom.true_token().is_some()
}

/// `CfgAtom::false_token` is present.
#[verifier::external_body]
fn atom_false(atom: &ast::CfgAtom) -> (r: bool) {
    atom.false_token().is_some()
}

/// `CfgAtom::ident_token`, as text.
#[verifier::external_body]
fn atom_key(atom: &ast::CfgAtom) -> (r: Option<String>) {
    match atom.ident_token() {
        Some(token) => Some(token.text().to_string()),
        None => None,
    }
}

/// `CfgAtom::eq_token` is present.
#[verifier::external_body]
fn atom_eq(atom: &ast::CfgAtom) -> (r: bool) {
    atom.eq_token().is_some()
}

/// `CfgAtom::string_token`, as a string literal.
#[verifier::external_body]
fn atom_string(atom: &ast::CfgAtom) -> (r: Option<ast::String>) {
    match atom.string_token() {
        Some(token) => ast::String::cast(token),
        None => None,
    }
}

/// `ast::String::value`: the unescaped literal, when it is valid.
#[verifier::external_body]
fn string_value(literal: &ast::String) -> (r: Option<String>) {
    match literal.value() {
        Ok(value) => Some(value.into_owned()),
        Err(_) => None,
    }
}

/// `CfgComposite::keyword`, as text.
#[verifier::external_body]
fn composite_keyword(composite: &ast::CfgComposite) -> (r: Option<String>) {
    match composite.keyword() {
        Some(token) => Some(token.text().to_string()),
        None => None,
    }
}

/// `CfgComposite::cfg_predicates`: the operands, in order.
#[verifier::external_body]
fn composite_children(composite: &ast::CfgComposite) -> (r: Vec<ast::CfgPredicate>) {
    composite.cfg_predicates().collect()
}

// ---------------------------------------------------------------------------
// Conversion to plain values
// ---------------------------------------------------------------------------

/// Nesting of meta items and predicates beyond which the rest is read as unknown.
pub const MAX_NESTING: u32 = 512;

/// Whether every composite of `p` lies within `depth` nested levels.
pub open spec fn predicate_within(p: Predicate, depth: int) -> bool
    decreases p,
{
    match p {
        Predicate::Atom(_) => true,
        Predicate::Composite(_, children) => depth > 0 && predicates_within(children@, depth - 1),
    }
}

/// Whether each predicate of `s` lies within `depth` nested levels.
pub open spec fn predicates_within(s: Seq<Predicate>, depth: int) -> bool
    decreases s,
{
    if s.len() == 0 {
        true
    } else {
        predicates_within(s.drop_last(), depth) && predicate_within(s.last(), depth)
    }
}

/// Whether every nested predicate and meta item of `m` lies within `depth` nested levels.
pub open spec fn meta_within(m: MetaItem, depth: int) -> bool
    decreases m,
{
    match m {
        MetaItem::Cfg(p) => match p {
            Some(p) => depth > 0 && predicate_within(p, depth - 1),
            None => true,
        },
        MetaItem::CfgAttr(p, metas) => {
            &&& (match p {
                Some(p) => depth > 0 && predicate_within(p, depth - 1),
                None => true,
            })
            &&& (metas@.len() > 0 ==> depth > 0)
            &&& metas_within(metas@, depth - 1)
        },
        MetaItem::Unsafe(inner) => match inner {
            Some(b) => depth > 0 && meta_within(*b, depth - 1),
            None => true,
        },
        MetaItem::Other(_) => true,
    }
}

/// Whether each meta item of `s` lies within `depth` nested levels.
pub open spec fn metas_within(s: Seq<MetaItem>, depth: int) -> bool
    decreases s,
{
    if s.len() == 0 {
        true
    } else {
        metas_within(s.drop_last(), depth) && meta_within(s.last(), depth)
    }
}

proof fn lemma_predicates_within(s: Seq<Predicate>, depth: int)
    requires
        forall|i: int| 0 <= i < s.len() ==> #[trigger] predicate_within(s[i], depth),
    ensures
        predicates_within(s, depth),
    decreases s.len(),
{
    if s.len() > 0 {
        assert forall|i: int| 0 <= i < s.drop_last().len() implies #[trigger] predicate_within(s.drop_last()[i], depth) by {
            assert(s.drop_last()[i] == s[i]);
        }
        lemma_predicates_within(s.drop_last(), depth);
        assert(predicate_within(s[s.len() - 1], depth));
    }
}

proof fn lemma_metas_within(s: Seq<MetaItem>, depth: int)
    requires
        forall|i: int| 0 <= i < s.len() ==> #[trigger] meta_within(s[i], depth),
    ensures
        metas_within(s, depth),
    decreases s.len(),
{
    if s.len() > 0 {
        assert forall|i: int| 0 <= i < s.drop_last().len() implies #[trigger] meta_within(s.drop_last()[i], depth) by {
            assert(s.drop_last()[i] == s[i]);
        }
        lemma_metas_within(s.drop_last(), depth);
        assert(meta_within(s[s.len() - 1], depth));
    }
}

/// The predicate as a plain value. Beyond `depth` nested levels the rest is an atom without
/// key, which evaluates to unknown.
fn predicate_item(predicate: ast::CfgPredicate, depth: u32) -> (r: Predicate)
    ensures
        depth == 0 ==> r == Predicate::Atom(
            AtomItem { true_token: false, false_token: false, key: None, eq_token: false, value: None },
        ),
        predicate_within(r, depth as int),
    decreases depth,
{
    if depth == 0 {
        return Predicate::Atom(
            AtomItem { true_token: false, false_token: false, key: None, eq_token: false, value: None },
        );
    }
    match predicate_kind(predicate) {
        PredicateKind::Atom(atom) => {
            let value = match atom_string(&atom) {
                Some(literal) => string_value(&literal),
                None => None,
            };
            Predicate::Atom(
                AtomItem {
                    true_token: atom_true(&atom),
                    false_token: atom_false(&atom),
                    key: atom_key(&atom),
                    eq_token: atom_eq(&atom),
                    value,
                },
            )
        },
        PredicateKind::Composite(composite) => {
            let operands = composite_children(&composite);
            let mut children: Vec<Predicate> = Vec::new();
            let next = depth - 1;
            for operand in operands
                invariant
                    next < depth,
                    next == depth - 1,
                    forall|k: int| 0 <= k < children@.len() ==> #[trigger] predicate_within(children@[k], next as int),
            {
                let child = predicate_item(operand, next);
                children.push(child);
            }
            proof {
                lemma_predicates_within(children@, next as int);
            }
            let r = Predicate::Composite(composite_keyword(&composite), children);
            r
        },
    }
}

/// The meta item as a plain value. Beyond `depth` nested levels the rest is a `cfg_attr`
/// without predicate, which evaluates to unknown and may hide a macro.
fn meta_item(meta: ast::Meta, depth: u32) -> (r: MetaItem)
    ensures
        depth == 0 ==> (r matches MetaItem::CfgAttr(None, metas) && metas@.len() == 0),
        meta_within(r, depth as int),
    decreases depth,
{
    if depth == 0 {
        let none: Vec<MetaItem> = Vec::new();
        proof {
            assert(metas_within(none@, -1));
        }
        return MetaItem::CfgAttr(None, none);
    }
    match meta_kind(meta) {
        MetaKind::Cfg(m) => MetaItem::Cfg(
            match cfg_meta_predicate(&m) {
                Some(p) => Some(predicate_item(p, depth - 1)),
                None => None,
            },
        ),
        MetaKind::CfgAttr(m) => {
            let guard = match cfg_attr_predicate(&m) {
                Some(p) => Some(predicate_item(p, depth - 1)),
                None => None,
            };
            let inner = cfg_attr_metas(&m);
            let mut metas: Vec<MetaItem> = Vec::new();
            let next = depth - 1;
            for item in inner
                invariant
                    next < depth,
                    next == depth - 1,
                    forall|k: int| 0 <= k < metas@.len() ==> #[trigger] meta_within(metas@[k], next as int),
            {
                let one = meta_item(item, next);
                metas.push(one);
            }
            proof {
                lemma_metas_within(metas@, next as int);
            }
            let r = MetaItem::CfgAttr(guard, metas);
            r
        },
        MetaKind::Unsafe(m) => MetaItem::Unsafe(
            match unsafe_inner(&m) {
                Some(inner) => Some(Box::new(meta_item(inner, depth - 1))),
                None => None,
            },
        ),
        MetaKind::Other(m) => MetaItem::Other(meta_simple_name(&m)),
    }
}

/// The attribute as a plain value.
fn attr_item(attr: &ast::Attr) -> (r: AttrItem)
    ensures
        r.meta matches Some(m) ==> meta_within(m, MAX_NESTING as int),
{
    let meta = match attr_meta(attr) {
        Some(m) => Some(meta_item(m, MAX_NESTING)),
        None => None,
    };
    AttrItem { meta, name: attr_simple_name(attr), text: attr_text(attr) }
}

/// The attributes among the child nodes of `node`, in order.
fn child_attrs(children: &Vec<Node>) -> (r: Vec<AttrItem>)
    ensures
        r@.len() <= children@.len(),
        forall|k: int| 0 <= k < r@.len() ==> ((#[trigger] r@[k]).meta matches Some(m) ==> meta_within(m, MAX_NESTING as int)),
{
    let mut attrs: Vec<AttrItem> = Vec::new();
    let mut i: usize = 0;
    while i < children.len()
        invariant
            i <= children@.len(),
            attrs@.len() <= i,
            forall|k: int| 0 <= k < attrs@.len() ==> ((#[trigger] attrs@[k]).meta matches Some(m) ==> meta_within(m, MAX_NESTING as int)),
        decreases children.len() - i,
    {
        match attr_cast(&children[i]) {
            Some(attr) => {
                let item = attr_item(&attr);
                attrs.push(item);
            },
            None => {},
        }
        i += 1;
    }
    attrs
}

impl Node {
    /// Parses Rust source text (2024 edition) and returns the root of its syntax tree.
    /// Parsing always yields a tree; errors become error nodes.
    pub fn parse(text: &str) -> (r: Node) {
        parse_text(text)
    }

    /// The child nodes, in order.
    pub fn children(&self) -> (r: Vec<Node>) {
        node_children(self)
    }

    /// The node itself, then each enclosing node outward.
    pub fn ancestors(&self) -> (r: Vec<Node>)
        ensures
            r@.len() >= 1,
            r@[0] == *self,
    {
        node_ancestors(self)
    }

    /// The node and every node below it, in preorder.
    pub fn descendants(&self) -> (r: Vec<Node>)
        ensures
            r@.len() >= 1,
            r@[0] == *self,
    {
        node_descendants(self)
    }

    /// Whether `other` denotes the same node.
    pub fn same(&self, other: &Node) -> (r: bool)
        ensures
            r == (*self == *other),
    {
        same_node(self, other)
    }
}

// ---------------------------------------------------------------------------
// The file's shape
// ---------------------------------------------------------------------------

/// A file's nodes in preorder with a handle to each, and the number of child links seen.
pub struct FileShape {
    pub nodes: Vec<TreeNode>,
    pub handles: Vec<Node>,
    pub child_visits: usize,
}

/// Reads the shape of the tree under `root` in one preorder walk, reading each node's
/// children once.
pub fn read_shape(root: &Node) -> (r: FileShape)
    ensures
        tree_wf(r.nodes@),
        r.handles@.len() == r.nodes@.len(),
        r.nodes@.len() >= 1,
{
    let budget = node_descendants(root).len();
    let mut nodes: Vec<TreeNode> = Vec::new();
    let mut handles: Vec<Node> = Vec::new();
    let mut child_visits: usize = 0;
    let mut stack: Vec<(Node, Option<usize>)> = Vec::new();
    stack.push((node_handle(root), None));
    while stack.len() > 0 && (nodes.len() < budget || nodes.len() == 0)
        invariant
            tree_wf(nodes@),
            handles@.len() == nodes@.len(),
            forall|k: int| 0 <= k < stack@.len() ==> ((#[trigger] stack@[k]).1 matches Some(p) ==> p
                < nodes@.len()),
            nodes@.len() == 0 ==> stack@.len() == 1 && stack@[0].1 is None,
            nodes@.len() <= (if budget == 0 { 1 } else { budget }),
        decreases (if budget == 0 { 1 } else { budget }) - nodes@.len(), stack@.len(),
    {
        let (node, parent) = stack.pop().unwrap();
        let index = nodes.len();
        let children = node_children(&node);
        let attrs = child_attrs(&children);
        if child_visits < usize::MAX - children.len() {
            child_visits = child_visits + children.len();
        }
        nodes.push(TreeNode { parent, attrs, children: children.len() });
        handles.push(node);
        let mut k = children.len();
        while k > 0
            invariant
                k <= children@.len(),
                forall|m: int| 0 <= m < stack@.len() ==> ((#[trigger] stack@[m]).1 matches Some(p) ==> p
                    < nodes@.len()),
                index < nodes@.len(),
            decreases k,
        {
            k -= 1;
            stack.push((node_handle(&children[k]), Some(index)));
        }
    }
    if nodes.len() == 0 {
        nodes.push(TreeNode { parent: None, attrs: Vec::new(), children: 0 });
        handles.push(node_handle(root));
    }
    FileShape { nodes, handles, child_visits }
}

// ---------------------------------------------------------------------------
// The per-file cache
// ---------------------------------------------------------------------------

/// What node `k` inherits, as facts: status, macro flag and, along `chain`, the
/// configuration attribute texts.
pub open spec fn facts_of(
    st: Settings,
    t: Seq<TreeNode>,
    chain: Seq<CfgAttributes>,
    k: int,
    s: InheritedSettings,
) -> bool {
    &&& s.status == status_at(st, t, k as nat)
    &&& s.macro_unavailable == macro_at(st, t, k as nat)
    &&& chain_texts(chain, s.cfg) == cfg_at(t, k as nat)
}

/// Whether node `k` inherits anything other than the defaults.
pub open spec fn notable(st: Settings, t: Seq<TreeNode>, k: int) -> bool {
    status_at(st, t, k as nat) != CfgStatus::Active || macro_at(st, t, k as nat) || cfg_at(
        t,
        k as nat,
    ).len() > 0
}

/// Whether a cache entry is the handle and facts of some notable node of the file.
pub open spec fn cached_from(
    st: Settings,
    t: Seq<TreeNode>,
    handles: Seq<Node>,
    chain: Seq<CfgAttributes>,
    entry: (Node, InheritedSettings),
) -> bool {
    exists|k: int|
        0 <= k < t.len() && entry.0 == #[trigger] handles[k] && notable(st, t, k) && facts_of(
            st,
            t,
            chain,
            k,
            entry.1,
        )
}

/// Whether entry `m` is the first cached entry for `node`.
pub open spec fn first_entry(entries: Seq<(Node, InheritedSettings)>, node: Node, m: int) -> bool {
    &&& 0 <= m < entries.len()
    &&& entries[m].0 == node
    &&& forall|j: int| 0 <= j < m ==> (#[trigger] entries[j]).0 != node
}

/// Whether no cached entry is for `node`.
pub open spec fn uncached(entries: Seq<(Node, InheritedSettings)>, node: Node) -> bool {
    forall|m: int| 0 <= m < entries.len() ==> (#[trigger] entries[m]).0 != node
}

/// File-local inherited configuration facts, computed in one preorder pass without
/// rescanning ancestors. Only nodes that inherit something other than the defaults
/// (active, no macro, no configuration attribute) are kept.
pub struct FileConfigurations {
    pub nodes: Vec<(Node, InheritedSettings)>,
    pub cfg: Vec<CfgAttributes>,
    pub node_visits: usize,
    pub child_visits: usize,
}

/// Every entry of the chain holds at least one attribute.
pub open spec fn chain_entries_nonempty(e: Seq<CfgAttributes>) -> bool {
    forall|k: int| 0 <= k < e.len() ==> (#[trigger] e[k]).attributes@.len() > 0
}

proof fn lemma_chain_nonempty(e: Seq<CfgAttributes>, start: Option<usize>)
    requires
        chain_entries_nonempty(e),
        start matches Some(c) ==> c < e.len(),
    ensures
        start is Some <==> chain_texts(e, start).len() > 0,
{
    match start {
        Some(c) => {
            assert(e[c as int].attributes@.len() > 0);
        },
        None => {},
    }
}

impl FileConfigurations {
    /// Caches the facts of every node of `shape` that inherits something other than the
    /// defaults, in preorder, with the node's handle.
    pub fn from_shape(shape: FileShape, settings: &Settings) -> (r: Self)
        requires
            tree_wf(shape.nodes@),
            shape.handles@.len() == shape.nodes@.len(),
        ensures
            r.node_visits == shape.nodes@.len(),
            r.child_visits == shape.child_visits,
            forall|m: int|
                0 <= m < r.nodes@.len() ==> cached_from(
                    *settings,
                    shape.nodes@,
                    shape.handles@,
                    r.cfg@,
                    #[trigger] r.nodes@[m],
                ),
            forall|k: int|
                0 <= k < shape.nodes@.len() && #[trigger] notable(*settings, shape.nodes@, k)
                    ==> exists|m: int|
                    0 <= m < r.nodes@.len() && r.nodes@[m].0 == shape.handles@[k],
    {
        let (facts, chain) = inherit_all(&shape.nodes, settings);
        let handles = &shape.handles;
        let child_visits = shape.child_visits;
        let ghost t = shape.nodes@;
        let mut kept: Vec<(Node, InheritedSettings)> = Vec::new();
        let ghost mut origin: Seq<int> = Seq::empty();
        let ghost mut slot: Seq<int> = Seq::empty();
        let mut k: usize = 0;
        let n = handles.len();
        while k < n
            invariant
                n == handles@.len(),
                n == t.len(),
                facts@.len() == t.len(),
                k <= n,
                forall|j: int|
                    0 <= j < t.len() ==> {
                        &&& facts_of(*settings, t, chain@, j, #[trigger] facts@[j])
                        &&& (facts@[j].cfg matches Some(c) ==> c < chain@.len())
                    },
                chain_entries_nonempty(chain@),
                origin.len() == kept@.len(),
                forall|m: int|
                    0 <= m < kept@.len() ==> {
                        &&& 0 <= #[trigger] origin[m] < k
                        &&& kept@[m].0 == handles@[origin[m]]
                        &&& notable(*settings, t, origin[m])
                        &&& facts_of(*settings, t, chain@, origin[m], kept@[m].1)
                    },
                slot.len() == k,
                forall|j: int|
                    0 <= j < k && notable(*settings, t, j) ==> {
                        &&& 0 <= #[trigger] slot[j] < kept@.len()
                        &&& kept@[slot[j]].0 == handles@[j]
                    },
            decreases n - k,
        {
            let entry = facts[k];
            proof {
                assert(facts_of(*settings, t, chain@, k as int, facts@[k as int]));
                lemma_chain_nonempty(chain@, entry.cfg);
            }
            if entry.status != CfgStatus::Active || entry.macro_unavailable || entry.cfg.is_some() {
                let handle = node_handle(&handles[k]);
                let ghost at = kept@.len() as int;
                kept.push((handle, entry));
                proof {
                    origin = origin.push(k as int);
                    slot = slot.push(at);
                    assert(kept@[at].0 == handles@[k as int]);
                }
            } else {
                proof {
                    slot = slot.push(-1);
                }
            }
            k += 1;
        }
        let cache = FileConfigurations { nodes: kept, cfg: chain, node_visits: n, child_visits };
        proof {
            assert forall|m: int| 0 <= m < cache.nodes@.len() implies cached_from(
                *settings,
                shape.nodes@,
                shape.handles@,
                cache.cfg@,
                #[trigger] cache.nodes@[m],
            ) by {
                let j = origin[m];
                assert(cache.nodes@[m].0 == shape.handles@[j]);
            }
            assert forall|j: int|
                0 <= j < shape.nodes@.len() && #[trigger] notable(
                    *settings,
                    shape.nodes@,
                    j,
                ) implies exists|m: int|
                0 <= m < cache.nodes@.len() && cache.nodes@[m].0 == shape.handles@[j] by {
                let m = slot[j];
                assert(cache.nodes@[m].0 == shape.handles@[j]);
            }
        }
        cache
    }
}

impl FileConfigurations {
    /// Computes the cache for the file under `root` in one preorder walk that reads each
    /// node's children once.
    pub fn new(root: &Node, settings: &Settings) -> (r: Self)
        ensures
            exists|shape: FileShape|
                {
                    &&& tree_wf(shape.nodes@)
                    &&& shape.handles@.len() == shape.nodes@.len()
                    &&& r.node_visits == shape.nodes@.len()
                    &&& r.child_visits == shape.child_visits
                    &&& forall|m: int|
                        0 <= m < r.nodes@.len() ==> cached_from(
                            *settings,
                            shape.nodes@,
                            shape.handles@,
                            r.cfg@,
                            #[trigger] r.nodes@[m],
                        )
                    &&& forall|k: int|
                        0 <= k < shape.nodes@.len() && #[trigger] notable(
                            *settings,
                            shape.nodes@,
                            k,
                        ) ==> exists|m: int|
                            0 <= m < r.nodes@.len() && r.nodes@[m].0 == shape.handles@[k]
                },
    {
        let shape = read_shape(root);
        let ghost kept = shape;
        let cache = Self::from_shape(shape, settings);
        proof {
            assert(tree_wf(kept.nodes@));
        }
        cache
    }

    /// Position of the first cached entry for `node`.
    fn find(&self, node: &Node) -> (r: Option<usize>)
        ensures
            r matches Some(m) ==> first_entry(self.nodes@, *node, m as int),
            r is None ==> uncached(self.nodes@, *node),
    {
        let mut m: usize = 0;
        while m < self.nodes.len()
            invariant
                m <= self.nodes@.len(),
                forall|j: int| 0 <= j < m ==> (#[trigger] self.nodes@[j]).0 != *node,
            decreases self.nodes.len() - m,
        {
            if same_node(&self.nodes[m].0, node) {
                return Some(m);
            }
            m += 1;
        }
        None
    }

    /// Inherited status of `node`: its cached status, or active when it is not cached.
    pub fn node_status(&self, node: &Node) -> (r: CfgStatus)
        ensures
            uncached(self.nodes@, *node) ==> r == CfgStatus::Active,
            forall|m: int| #[trigger] first_entry(self.nodes@, *node, m) ==> r == self.nodes@[m].1.status,
            r == CfgStatus::Active || exists|m: int|
                0 <= m < self.nodes@.len() && r == (#[trigger] self.nodes@[m]).1.status,
    {
        match self.find(node) {
            Some(m) => self.nodes[m].1.status,
            None => CfgStatus::Active,
        }
    }

    /// Whether an attribute of `node` or of an ancestor may hide a macro expansion.
    pub fn has_attribute_macro(&self, node: &Node) -> (r: bool)
        ensures
            uncached(self.nodes@, *node) ==> !r,
            forall|m: int| #[trigger] first_entry(self.nodes@, *node, m) ==> r == self.nodes@[m].1.macro_unavailable,
            r ==> exists|m: int|
                0 <= m < self.nodes@.len() && (#[trigger] self.nodes@[m]).1.macro_unavailable,
    {
        match self.find(node) {
            Some(m) => self.nodes[m].1.macro_unavailable,
            None => false,
        }
    }

    /// Texts of the configuration attributes along the chain from entry `start`.
    fn chain_strings(&self, start: Option<usize>) -> (r: Vec<String>)
        ensures
            texts(r@) == chain_texts(self.cfg@, start),
    {
        let mut out: Vec<String> = Vec::new();
        let mut current = start;
        let ghost goal = chain_texts(self.cfg@, start);
        proof {
            assert(texts(out@) + chain_texts(self.cfg@, current) =~= goal);
        }
        while current.is_some()
            invariant
                texts(out@) + chain_texts(self.cfg@, current) == goal,
            decreases (match current {
                Some(i) => i + 1,
                None => 0,
            }),
        {
            let i = match current {
                Some(i) => i,
                None => 0,
            };
            if i >= self.cfg.len() {
                proof {
                    assert(texts(out@) + chain_texts(self.cfg@, None) =~= texts(out@));
                }
                current = None;
            } else {
                let entry = &self.cfg[i];
                let ghost prefix = texts(out@);
                let mut j: usize = 0;
                while j < entry.attributes.len()
                    invariant
                        j <= entry.attributes@.len(),
                        texts(out@) == prefix + texts(entry.attributes@).take(j as int),
                    decreases entry.attributes.len() - j,
                {
                    let ghost before = out@;
                    let item = entry.attributes[j].clone();
                    out.push(item);
                    proof {
                        assert(out@ =~= before.push(item));
                        assert(texts(out@) =~= texts(before).push(item@));
                        assert(texts(entry.attributes@)[j as int] == item@);
                        assert(texts(out@) =~= prefix + texts(entry.attributes@).take(j + 1));
                    }
                    j += 1;
                }
                let next = match entry.parent {
                    Some(p) => if p < i {
                        Some(p)
                    } else {
                        None
                    },
                    None => None,
                };
                proof {
                    assert(texts(entry.attributes@).take(j as int) =~= texts(entry.attributes@));
                    assert(texts(out@) + chain_texts(self.cfg@, next) =~= goal);
                }
                current = next;
            }
        }
        proof {
            assert(texts(out@) =~= goal);
        }
        out
    }

    /// Texts of the configuration attributes that apply to `node`, nearest scope first and
    /// in sibling order within a scope; empty when `node` is not cached.
    pub fn cfg(&self, node: &Node) -> (r: Vec<String>)
        ensures
            uncached(self.nodes@, *node) ==> r@.len() == 0,
            forall|m: int| #[trigger] first_entry(self.nodes@, *node, m) ==> texts(r@) == chain_texts(
                self.cfg@,
                self.nodes@[m].1.cfg,
            ),
            r@.len() == 0 || exists|m: int|
                0 <= m < self.nodes@.len() && texts(r@) == chain_texts(
                    self.cfg@,
                    (#[trigger] self.nodes@[m]).1.cfg,
                ),
    {
        match self.find(node) {
            Some(m) => self.chain_strings(self.nodes[m].1.cfg),
            None => Vec::new(),
        }
    }
}

/// The meta items of the attributes among the children of each of `nodes`, in order.
fn metas_of(nodes: &Vec<Node>) -> (r: Vec<MetaItem>)
    ensures
        forall|k: int| 0 <= k < r@.len() ==> #[trigger] meta_within(r@[k], MAX_NESTING as int),
{
    let mut metas: Vec<MetaItem> = Vec::new();
    let mut i: usize = 0;
    while i < nodes.len()
        invariant
            forall|k: int| 0 <= k < metas@.len() ==> #[trigger] meta_within(metas@[k], MAX_NESTING as int),
        decreases nodes.len() - i,
    {
        let children = node_children(&nodes[i]);
        let mut j: usize = 0;
        while j < children.len()
            invariant
                forall|k: int| 0 <= k < metas@.len() ==> #[trigger] meta_within(metas@[k], MAX_NESTING as int),
            decreases children.len() - j,
        {
            match attr_cast(&children[j]) {
                Some(attr) => match attr_meta(&attr) {
                    Some(m) => {
                        let item = meta_item(m, MAX_NESTING);
                        metas.push(item);
                    },
                    None => {},
                },
                None => {},
            }
            j += 1;
        }
        i += 1;
    }
    metas
}

impl Settings {
    /// The status a chain of meta items gives: the conjunction of their statuses.
    pub fn metas_status(&self, metas: &Vec<MetaItem>) -> (r: CfgStatus)
        ensures
            r == combined(metas@.map_values(|m: MetaItem| meta_status(*self, m)), false),
    {
        let mut values: Vec<CfgStatus> = Vec::new();
        let mut i: usize = 0;
        while i < metas.len()
            invariant
                i <= metas@.len(),
                values@ == metas@.take(i as int).map_values(|m: MetaItem| meta_status(*self, m)),
            decreases metas.len() - i,
        {
            let value = self.meta_status(&metas[i]);
            values.push(value);
            proof {
                assert(values@ =~= metas@.take(i + 1).map_values(|m: MetaItem| meta_status(*self, m)));
            }
            i += 1;
        }
        proof {
            assert(metas@.take(i as int) =~= metas@);
        }
        combine(&values, false)
    }

    /// Whether any of a chain of meta items may hide a macro expansion.
    pub fn metas_hide_macro(&self, metas: &Vec<MetaItem>) -> (r: bool)
        ensures
            r == any_unavailable(*self, metas@),
    {
        let mut found = false;
        let mut i: usize = 0;
        while i < metas.len()
            invariant
                i <= metas@.len(),
                found == any_unavailable(*self, metas@.take(i as int)),
            decreases metas.len() - i,
        {
            proof {
                assert(metas@.take(i + 1).drop_last() =~= metas@.take(i as int));
            }
            let hidden = self.attribute_unavailable(&metas[i]);
            found = found || hidden;
            i += 1;
        }
        proof {
            assert(metas@.take(i as int) =~= metas@);
        }
        found
    }

    /// The status an attribute, read as a plain item, gives its node: its meta item's
    /// status, or unknown when it has none.
    pub fn item_status(&self, item: &AttrItem) -> (r: CfgStatus)
        ensures
            r == match item.meta {
                Some(m) => meta_status(*self, m),
                None => CfgStatus::Unknown,
            },
    {
        match &item.meta {
            Some(m) => self.meta_status(m),
            None => CfgStatus::Unknown,
        }
    }

    /// Status of `node` by rescanning: the conjunction of the meta statuses of every
    /// attribute on `node` and its ancestors, as `metas_status` gives it for the meta items
    /// read from them.
    pub fn node_status(&self, node: &Node) -> (r: CfgStatus)
        ensures
            exists|ms: Seq<MetaItem>|
                #![trigger ms.len()]
                r == combined(ms.map_values(|m: MetaItem| meta_status(*self, m)), false),
    {
        let metas = metas_of(&node_ancestors(node));
        let r = self.metas_status(&metas);
        assert(metas@.len() == metas@.len());
        r
    }

    /// Whether an attribute on `node` or an ancestor may hide a macro expansion, by
    /// rescanning, as `metas_hide_macro` gives it for the meta items read from them.
    pub fn has_attribute_macro(&self, node: &Node) -> (r: bool)
        ensures
            exists|ms: Seq<MetaItem>| r == any_unavailable(*self, ms),
    {
        let metas = metas_of(&node_ancestors(node));
        self.metas_hide_macro(&metas)
    }

    /// Status that `attr` gives its node, as `item_status` gives it for the attribute read
    /// as a plain item.
    pub fn attr_status(&self, attr: &ast::Attr) -> (r: CfgStatus)
        ensures
            exists|item: AttrItem|
                r == match item.meta {
                    Some(m) => meta_status(*self, m),
                    None => CfgStatus::Unknown,
                },
    {
        let item = attr_item(attr);
        self.item_status(&item)
    }
}

/// Whether an attribute, read as a plain item, is named `cfg` or `cfg_attr`.
pub open spec fn cfg_named(item: AttrItem) -> bool {
    item.name matches Some(n) && (n@ == "cfg"@ || n@ == "cfg_attr"@)
}

/// The texts of the `cfg` and `cfg_attr` attributes among `items`, in order.
pub open spec fn cfg_texts(items: Seq<AttrItem>) -> Seq<Seq<char>>
    decreases items.len(),
{
    if items.len() == 0 {
        seq![]
    } else if cfg_named(items.last()) {
        cfg_texts(items.drop_last()).push(items.last().text@)
    } else {
        cfg_texts(items.drop_last())
    }
}

/// The texts of the `cfg` and `cfg_attr` attributes among `items`, in order.
pub fn cfg_attribute_texts(items: &Vec<AttrItem>) -> (r: Vec<String>)
    ensures
        texts(r@) == cfg_texts(items@),
{
    let mut out: Vec<String> = Vec::new();
    let mut i: usize = 0;
    while i < items.len()
        invariant
            i <= items@.len(),
            texts(out@) == cfg_texts(items@.take(i as int)),
        decreases items.len() - i,
    {
        proof {
            assert(items@.take(i + 1).drop_last() =~= items@.take(i as int));
        }
        let selected = match &items[i].name {
            Some(n) => crate::text::text_is(n.as_str(), "cfg") || crate::text::text_is(n.as_str(), "cfg_attr"),
            None => false,
        };
        if selected {
            let ghost before = out@;
            out.push(items[i].text.clone());
            proof {
                assert(texts(out@) =~= texts(before).push(items@[i as int].text@));
            }
        }
        i += 1;
    }
    proof {
        assert(items@.take(i as int) =~= items@);
    }
    out
}

/// Texts of the `cfg` and `cfg_attr` attributes on `node` and each ancestor, nearest first,
/// found by rescanning the ancestors' children, as `cfg_attribute_texts` gives them for the
/// attributes read from those children.
pub fn ancestor_cfg_attributes(node: &Node) -> (r: Vec<String>)
    ensures
        exists|items: Seq<AttrItem>| texts(r@) == cfg_texts(items),
{
    let ancestors = node_ancestors(node);
    let mut items: Vec<AttrItem> = Vec::new();
    let mut i: usize = 0;
    while i < ancestors.len()
        decreases ancestors.len() - i,
    {
        let children = node_children(&ancestors[i]);
        let mut attrs = child_attrs(&children);
        items.append(&mut attrs);
        i += 1;
    }
    cfg_attribute_texts(&items)
}

} // verus!
