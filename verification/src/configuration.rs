//! Configuration status of syntax: whether `cfg` predicates hold in one selected build
//! configuration, which attributes may hide a macro expansion, and which `cfg` attributes
//! apply to a node through its ancestors.
use crate::model::{texts, CfgStatus};
use crate::text::text_is;
use vstd::prelude::*;

verus! {

// ---------------------------------------------------------------------------
// Statuses
// ---------------------------------------------------------------------------

/// `Active` for true, `Inactive` for false.
pub open spec fn status_of(value: bool) -> CfgStatus {
    if value {
        CfgStatus::Active
    } else {
        CfgStatus::Inactive
    }
}

/// `Active` for true, `Inactive` for false.
pub fn from_bool(value: bool) -> (r: CfgStatus)
    ensures
        r == status_of(value),
{
    if value {
        CfgStatus::Active
    } else {
        CfgStatus::Inactive
    }
}

/// Status of a conjunction (`any` false) or disjunction (`any` true) of statuses: a
/// deciding member decides, otherwise an unknown member makes it unknown.
pub open spec fn combined(values: Seq<CfgStatus>, any: bool) -> CfgStatus {
    if any {
        if values.contains(CfgStatus::Active) {
            CfgStatus::Active
        } else if values.contains(CfgStatus::Unknown) {
            CfgStatus::Unknown
        } else {
            CfgStatus::Inactive
        }
    } else {
        if values.contains(CfgStatus::Inactive) {
            CfgStatus::Inactive
        } else if values.contains(CfgStatus::Unknown) {
            CfgStatus::Unknown
        } else {
            CfgStatus::Active
        }
    }
}

/// Status of a conjunction (`any` false) or disjunction (`any` true) of statuses.
pub fn combine(values: &Vec<CfgStatus>, any: bool) -> (r: CfgStatus)
    ensures
        r == combined(values@, any),
{
    let mut unknown = false;
    let mut i: usize = 0;
    while i < values.len()
        invariant
            i <= values@.len(),
            unknown == values@.take(i as int).contains(CfgStatus::Unknown),
            any ==> !values@.take(i as int).contains(CfgStatus::Active),
            !any ==> !values@.take(i as int).contains(CfgStatus::Inactive),
        decreases values.len() - i,
    {
        let value = values[i];
        proof {
            let t = values@.take(i as int);
            let t1 = values@.take(i + 1);
            assert(t1 =~= t.push(value));
            assert(t1[i as int] == value);
            assert forall|x: CfgStatus| t1.contains(x) <==> (t.contains(x) || x == value) by {
                if t.contains(x) {
                    let j = choose|j: int| 0 <= j < t.len() && t[j] == x;
                    assert(t1[j] == x);
                }
                if t1.contains(x) {
                    let j = choose|j: int| 0 <= j < t1.len() && t1[j] == x;
                    if j < t.len() {
                        assert(t[j] == x);
                    }
                }
            }
        }
        if any && value == CfgStatus::Active {
            proof {
                assert(values@.contains(CfgStatus::Active) && values@[i as int] == value);
            }
            return CfgStatus::Active;
        }
        if !any && value == CfgStatus::Inactive {
            proof {
                assert(values@[i as int] == value);
            }
            return CfgStatus::Inactive;
        }
        if value == CfgStatus::Unknown {
            unknown = true;
        }
        i += 1;
    }
    proof {
        assert(values@.take(i as int) =~= values@);
    }
    if unknown {
        CfgStatus::Unknown
    } else {
        from_bool(!any)
    }
}

/// Status of a negation.
pub open spec fn negated(value: CfgStatus) -> CfgStatus {
    match value {
        CfgStatus::Active => CfgStatus::Inactive,
        CfgStatus::Inactive => CfgStatus::Active,
        CfgStatus::Unknown => CfgStatus::Unknown,
    }
}

// ---------------------------------------------------------------------------
// Attribute syntax, as plain values
// ---------------------------------------------------------------------------

/// A `cfg` atom: `true`, `false`, `key` or `key = "value"`. `value` holds the unescaped
/// string literal when it is present and valid.
#[derive(Debug)]
pub struct AtomItem {
    pub true_token: bool,
    pub false_token: bool,
    pub key: Option<String>,
    pub eq_token: bool,
    pub value: Option<String>,
}

/// A `cfg` predicate: an atom, or a keyword (`all`, `any`, `not`, ...) over predicates.
#[derive(Debug)]
pub enum Predicate {
    Atom(AtomItem),
    Composite(Option<String>, Vec<Predicate>),
}

/// The meta item of an attribute: `cfg(..)`, `cfg_attr(.., ..)`, `unsafe(..)`, or another
/// attribute with its simple name when it has one.
#[derive(Debug)]
pub enum MetaItem {
    Cfg(Option<Predicate>),
    CfgAttr(Option<Predicate>, Vec<MetaItem>),
    Unsafe(Option<Box<MetaItem>>),
    Other(Option<String>),
}

/// The characters of an optional string.
pub open spec fn opt_chars(o: Option<String>) -> Option<Seq<char>> {
    match o {
        Some(s) => Some(s@),
        None => None,
    }
}

/// Whether an attribute of this simple name never hides a macro expansion.
pub open spec fn inert_attribute(name: Seq<char>) -> bool {
    name == "derive"@ || name == "doc"@ || name == "allow"@ || name == "warn"@ || name
        == "deny"@ || name == "forbid"@ || name == "expect"@ || name == "inline"@ || name
        == "repr"@ || name == "test"@ || name == "must_use"@ || name == "no_mangle"@ || name
        == "export_name"@ || name == "link"@ || name == "link_name"@ || name
        == "link_section"@ || name == "path"@ || name == "cold"@ || name == "deprecated"@
        || name == "no_std"@ || name == "no_main"@ || name == "non_exhaustive"@ || name
        == "track_caller"@ || name == "automatically_derived"@ || name == "used"@ || name
        == "global_allocator"@ || name == "panic_handler"@
}

/// Whether `name` is one of the attribute names that never hide a macro expansion.
fn is_inert(name: &str) -> (r: bool)
    ensures
        r == inert_attribute(name@),
{
    text_is(name, "derive") || text_is(name, "doc") || text_is(name, "allow") || text_is(
        name,
        "warn",
    ) || text_is(name, "deny") || text_is(name, "forbid") || text_is(name, "expect") || text_is(
        name,
        "inline",
    ) || text_is(name, "repr") || text_is(name, "test") || text_is(name, "must_use") || text_is(
        name,
        "no_mangle",
    ) || text_is(name, "export_name") || text_is(name, "link") || text_is(name, "link_name")
        || text_is(name, "link_section") || text_is(name, "path") || text_is(name, "cold")
        || text_is(name, "deprecated") || text_is(name, "no_std") || text_is(name, "no_main")
        || text_is(name, "non_exhaustive") || text_is(name, "track_caller") || text_is(
        name,
        "automatically_derived",
    ) || text_is(name, "used") || text_is(name, "global_allocator") || text_is(
        name,
        "panic_handler",
    )
}

// ---------------------------------------------------------------------------
// Settings
// ---------------------------------------------------------------------------

/// One selected build configuration: `cfg` keys with their optional values (a later entry
/// for a key replaces an earlier one), enabled features, and whether feature selection is
/// unresolved, which makes every feature predicate unknown.
#[derive(Debug)]
pub struct Settings {
    pub cfg: Vec<(String, Option<String>)>,
    pub features: Vec<String>,
    pub unknown_features: bool,
}

/// The value selected for `cfg` key `key`: `None` when the key is not set, `Some(None)`
/// when it is set without a value.
pub open spec fn cfg_lookup(entries: Seq<(String, Option<String>)>, key: Seq<char>) -> Option<
    Option<Seq<char>>,
>
    decreases entries.len(),
{
    if entries.len() == 0 {
        None
    } else if entries.last().0@ == key {
        Some(opt_chars(entries.last().1))
    } else {
        cfg_lookup(entries.drop_last(), key)
    }
}

impl Settings {
    /// The value selected for `cfg` key `key`.
    pub open spec fn cfg_value(self, key: Seq<char>) -> Option<Option<Seq<char>>> {
        cfg_lookup(self.cfg@, key)
    }

    /// Whether feature `name` is enabled.
    pub open spec fn feature_on(self, name: Seq<char>) -> bool {
        texts(self.features@).contains(name)
    }

    /// Sets `cfg` key `key`, with or without a value, replacing an earlier setting.
    pub fn insert_cfg(&mut self, key: String, value: Option<String>)
        ensures
            final(self).cfg_value(key@) == Some(opt_chars(value)),
            forall|k: Seq<char>| k != key@ ==> final(self).cfg_value(k) == old(self).cfg_value(k),
            final(self).features == old(self).features,
            final(self).unknown_features == old(self).unknown_features,
    {
        self.cfg.push((key, value));
        proof {
            assert(self.cfg@.drop_last() =~= old(self).cfg@);
        }
    }

    /// Enables feature `name`.
    pub fn insert_feature(&mut self, name: String)
        ensures
            forall|f: Seq<char>| final(self).feature_on(f) <==> (old(self).feature_on(f) || f == name@),
            final(self).cfg == old(self).cfg,
            final(self).unknown_features == old(self).unknown_features,
    {
        let ghost prior = texts(self.features@);
        self.features.push(name);
        proof {
            assert(texts(self.features@) =~= prior.push(name@));
            assert forall|f: Seq<char>| #[trigger] texts(self.features@).contains(f) <==> (
            prior.contains(f) || f == name@) by {
                if prior.contains(f) {
                    let j = choose|j: int| 0 <= j < prior.len() && prior[j] == f;
                    assert(texts(self.features@)[j] == f);
                }
                if f == name@ {
                    assert(texts(self.features@)[prior.len() as int] == f);
                }
                if texts(self.features@).contains(f) {
                    let j = choose|j: int|
                        0 <= j < texts(self.features@).len() && texts(self.features@)[j] == f;
                    if j < prior.len() {
                        assert(prior[j] == f);
                    }
                }
            }
        }
    }

    /// The value selected for `cfg` key `key`.
    fn cfg_get(&self, key: &String) -> (r: Option<&Option<String>>)
        ensures
            match r {
                Some(v) => self.cfg_value(key@) == Some(opt_chars(*v)),
                None => self.cfg_value(key@) is None,
            },
    {
        let mut i = self.cfg.len();
        proof {
            assert(self.cfg@.take(i as int) =~= self.cfg@);
        }
        while i > 0
            invariant
                i <= self.cfg@.len(),
                cfg_lookup(self.cfg@, key@) == cfg_lookup(self.cfg@.take(i as int), key@),
            decreases i,
        {
            proof {
                assert(self.cfg@.take(i as int).drop_last() =~= self.cfg@.take(i - 1));
            }
            if self.cfg[i - 1].0 == *key {
                return Some(&self.cfg[i - 1].1);
            }
            i -= 1;
        }
        None
    }

    /// Whether feature `name` is enabled.
    fn has_feature(&self, name: &String) -> (r: bool)
        ensures
            r == self.feature_on(name@),
    {
        let mut i: usize = 0;
        while i < self.features.len()
            invariant
                i <= self.features@.len(),
                forall|j: int| 0 <= j < i ==> self.features@[j]@ != name@,
            decreases self.features.len() - i,
        {
            if self.features[i] == *name {
                proof {
                    assert(texts(self.features@)[i as int] == name@);
                }
                return true;
            }
            i += 1;
        }
        proof {
            if texts(self.features@).contains(name@) {
                let j = choose|j: int|
                    0 <= j < texts(self.features@).len() && texts(self.features@)[j] == name@;
                assert(self.features@[j]@ == name@);
            }
        }
        false
    }
}

impl Default for Settings {
    fn default() -> (r: Self)
        ensures
            r.cfg@.len() == 0,
            r.features@.len() == 0,
            !r.unknown_features,
    {
        Settings { cfg: Vec::new(), features: Vec::new(), unknown_features: false }
    }
}

// ---------------------------------------------------------------------------
// Predicate and meta evaluation
// ---------------------------------------------------------------------------

/// Status of an atom in `st`.
pub open spec fn atom_status(st: Settings, a: AtomItem) -> CfgStatus {
    if a.true_token {
        CfgStatus::Active
    } else if a.false_token {
        CfgStatus::Inactive
    } else {
        match a.key {
            None => CfgStatus::Unknown,
            Some(key) => if a.eq_token {
                match a.value {
                    None => CfgStatus::Unknown,
                    Some(value) => if key@ == "feature"@ {
                        if st.unknown_features {
                            CfgStatus::Unknown
                        } else {
                            status_of(st.feature_on(value@))
                        }
                    } else {
                        match st.cfg_value(key@) {
                            Some(selected) => status_of(selected == Some(value@)),
                            None => CfgStatus::Unknown,
                        }
                    },
                }
            } else {
                match st.cfg_value(key@) {
                    Some(selected) => status_of(selected is None),
                    None => if key@ == "test"@ {
                        CfgStatus::Inactive
                    } else {
                        CfgStatus::Unknown
                    },
                }
            },
        }
    }
}

/// Status of a predicate in `st`.
pub open spec fn predicate_status(st: Settings, p: Predicate) -> CfgStatus
    decreases p,
{
    match p {
        Predicate::Atom(a) => atom_status(st, a),
        Predicate::Composite(keyword, children) => match keyword {
            None => CfgStatus::Unknown,
            Some(k) => if k@ == "all"@ {
                combined(predicate_statuses(st, children@), false)
            } else if k@ == "any"@ {
                combined(predicate_statuses(st, children@), true)
            } else if k@ == "not"@ {
                if children@.len() == 1 {
                    negated(predicate_status(st, children@[0]))
                } else {
                    CfgStatus::Unknown
                }
            } else {
                CfgStatus::Unknown
            },
        },
    }
}

/// Statuses of a sequence of predicates, in order.
pub open spec fn predicate_statuses(st: Settings, s: Seq<Predicate>) -> Seq<CfgStatus>
    decreases s,
{
    if s.len() == 0 {
        seq![]
    } else {
        predicate_statuses(st, s.drop_last()).push(predicate_status(st, s.last()))
    }
}

/// Status of an optional predicate: a missing one is unknown.
pub open spec fn guard_status(st: Settings, p: Option<Predicate>) -> CfgStatus {
    match p {
        Some(p) => predicate_status(st, p),
        None => CfgStatus::Unknown,
    }
}

/// Status that one attribute's meta item gives its node in `st`: `cfg` gives its
/// predicate's status; `cfg_attr` with an inactive predicate gives active, with an active
/// one the conjunction of its metas, otherwise unknown; any other attribute gives active.
pub open spec fn meta_status(st: Settings, m: MetaItem) -> CfgStatus
    decreases m,
{
    match m {
        MetaItem::Cfg(p) => match p {
            Some(p) => predicate_status(st, p),
            None => CfgStatus::Unknown,
        },
        MetaItem::CfgAttr(p, metas) => match (match p {
            Some(p) => predicate_status(st, p),
            None => CfgStatus::Unknown,
        }) {
            CfgStatus::Inactive => CfgStatus::Active,
            CfgStatus::Active => combined(meta_statuses(st, metas@), false),
            CfgStatus::Unknown => CfgStatus::Unknown,
        },
        _ => CfgStatus::Active,
    }
}

/// Statuses of a sequence of meta items, in order.
pub open spec fn meta_statuses(st: Settings, s: Seq<MetaItem>) -> Seq<CfgStatus>
    decreases s,
{
    if s.len() == 0 {
        seq![]
    } else {
        meta_statuses(st, s.drop_last()).push(meta_status(st, s.last()))
    }
}

/// Whether a meta item may hide a macro expansion in `st`: an attribute other than the
/// inert ones, one under an unsafe wrapper, or one under a `cfg_attr` whose predicate is
/// active (or unknown).
pub open spec fn unavailable(st: Settings, m: MetaItem) -> bool
    decreases m,
{
    match m {
        MetaItem::Cfg(_) => false,
        MetaItem::CfgAttr(p, metas) => match (match p {
            Some(p) => predicate_status(st, p),
            None => CfgStatus::Unknown,
        }) {
            CfgStatus::Inactive => false,
            CfgStatus::Active => any_unavailable(st, metas@),
            CfgStatus::Unknown => true,
        },
        MetaItem::Unsafe(inner) => match inner {
            None => true,
            Some(b) => unavailable(st, *b),
        },
        MetaItem::Other(name) => match name {
            Some(n) => !inert_attribute(n@),
            None => true,
        },
    }
}

/// Whether any of a sequence of meta items may hide a macro expansion.
pub open spec fn any_unavailable(st: Settings, s: Seq<MetaItem>) -> bool
    decreases s,
{
    if s.len() == 0 {
        false
    } else {
        any_unavailable(st, s.drop_last()) || unavailable(st, s.last())
    }
}

impl Settings {
    /// Status of an atom.
    fn atom(&self, a: &AtomItem) -> (r: CfgStatus)
        ensures
            r == atom_status(*self, *a),
    {
        if a.true_token {
            return CfgStatus::Active;
        }
        if a.false_token {
            return CfgStatus::Inactive;
        }
        let key = match &a.key {
            Some(k) => k,
            None => {
                return CfgStatus::Unknown;
            },
        };
        if a.eq_token {
            let value = match &a.value {
                Some(v) => v,
                None => {
                    return CfgStatus::Unknown;
                },
            };
            if text_is(key.as_str(), "feature") {
                if self.unknown_features {
                    CfgStatus::Unknown
                } else {
                    from_bool(self.has_feature(value))
                }
            } else {
                match self.cfg_get(key) {
                    Some(selected) => {
                        let same = match selected {
                            Some(s) => *s == *value,
                            None => false,
                        };
                        from_bool(same)
                    },
                    None => CfgStatus::Unknown,
                }
            }
        } else {
            match self.cfg_get(key) {
                Some(selected) => from_bool(selected.is_none()),
                None => if text_is(key.as_str(), "test") {
                    CfgStatus::Inactive
                } else {
                    CfgStatus::Unknown
                },
            }
        }
    }

    /// Status of a predicate.
    pub fn predicate(&self, p: &Predicate) -> (r: CfgStatus)
        ensures
            r == predicate_status(*self, *p),
        decreases p,
    {
        match p {
            Predicate::Atom(a) => self.atom(a),
            Predicate::Composite(keyword, children) => {
                let k = match keyword {
                    Some(k) => k,
                    None => {
                        return CfgStatus::Unknown;
                    },
                };
                proof {
                    reveal_strlit("all");
                    reveal_strlit("any");
                    reveal_strlit("not");
                    assert("not"@ != "all"@ && "not"@ != "any"@) by {
                        assert("not"@[0] != "all"@[0]);
                        assert("not"@[0] != "any"@[0]);
                    }
                }
                if text_is(k.as_str(), "not") {
                    if children.len() == 1 {
                        let inner = self.predicate(&children[0]);
                        return match inner {
                            CfgStatus::Active => CfgStatus::Inactive,
                            CfgStatus::Inactive => CfgStatus::Active,
                            CfgStatus::Unknown => CfgStatus::Unknown,
                        };
                    }
                    return CfgStatus::Unknown;
                }
                let all = text_is(k.as_str(), "all");
                if !all && !text_is(k.as_str(), "any") {
                    return CfgStatus::Unknown;
                }
                let mut values: Vec<CfgStatus> = Vec::new();
                let mut i: usize = 0;
                proof {
                    assert(decreases_to!(*p => children@));
                }
                while i < children.len()
                    invariant
                        i <= children@.len(),
                        decreases_to!(*p => children@),
                        values@ == predicate_statuses(*self, children@.take(i as int)),
                    decreases children.len() - i,
                {
                    proof {
                        assert(children@.take(i + 1).drop_last() =~= children@.take(i as int));
                    }
                    proof {
                        assert(decreases_to!(children@ => children@[i as int]));
                    }
                    let value = self.predicate(&children[i]);
                    values.push(value);
                    i += 1;
                }
                proof {
                    assert(children@.take(i as int) =~= children@);
                }
                combine(&values, !all)
            },
        }
    }

    /// Status that an attribute's meta item gives its node.
    pub fn meta_status(&self, m: &MetaItem) -> (r: CfgStatus)
        ensures
            r == meta_status(*self, *m),
        decreases m,
    {
        match m {
            MetaItem::Cfg(p) => match p {
                Some(p) => self.predicate(p),
                None => CfgStatus::Unknown,
            },
            MetaItem::CfgAttr(p, metas) => {
                let guard = match p {
                    Some(p) => self.predicate(p),
                    None => CfgStatus::Unknown,
                };
                match guard {
                    CfgStatus::Inactive => CfgStatus::Active,
                    CfgStatus::Unknown => CfgStatus::Unknown,
                    CfgStatus::Active => {
                        let mut values: Vec<CfgStatus> = Vec::new();
                        let mut i: usize = 0;
                        proof {
                            assert(decreases_to!(*m => metas@));
                        }
                        while i < metas.len()
                            invariant
                                i <= metas@.len(),
                                decreases_to!(*m => metas@),
                                values@ == meta_statuses(*self, metas@.take(i as int)),
                            decreases metas.len() - i,
                        {
                            proof {
                                assert(metas@.take(i + 1).drop_last() =~= metas@.take(i as int));
                            }
                            proof {
                                assert(decreases_to!(metas@ => metas@[i as int]));
                            }
                            let value = self.meta_status(&metas[i]);
                            values.push(value);
                            i += 1;
                        }
                        proof {
                            assert(metas@.take(i as int) =~= metas@);
                        }
                        combine(&values, false)
                    },
                }
            },
            _ => CfgStatus::Active,
        }
    }

    /// Whether an attribute's meta item may hide a macro expansion.
    pub fn attribute_unavailable(&self, m: &MetaItem) -> (r: bool)
        ensures
            r == unavailable(*self, *m),
        decreases m,
    {
        match m {
            MetaItem::Cfg(_) => false,
            MetaItem::CfgAttr(p, metas) => {
                let guard = match p {
                    Some(p) => self.predicate(p),
                    None => CfgStatus::Unknown,
                };
                match guard {
                    CfgStatus::Inactive => false,
                    CfgStatus::Unknown => true,
                    CfgStatus::Active => {
                        let mut found = false;
                        let mut i: usize = 0;
                        proof {
                            assert(decreases_to!(*m => metas@));
                        }
                        while i < metas.len()
                            invariant
                                i <= metas@.len(),
                                decreases_to!(*m => metas@),
                                found == any_unavailable(*self, metas@.take(i as int)),
                            decreases metas.len() - i,
                        {
                            proof {
                                assert(metas@.take(i + 1).drop_last() =~= metas@.take(i as int));
                            }
                            proof {
                                assert(decreases_to!(metas@ => metas@[i as int]));
                            }
                            let hidden = self.attribute_unavailable(&metas[i]);
                            found = found || hidden;
                            i += 1;
                        }
                        proof {
                            assert(metas@.take(i as int) =~= metas@);
                        }
                        found
                    },
                }
            },
            MetaItem::Unsafe(inner) => match inner {
                None => true,
                Some(b) => self.attribute_unavailable(b),
            },
            MetaItem::Other(name) => match name {
                Some(n) => !is_inert(n.as_str()),
                None => true,
            },
        }
    }
}


/// `not` negates: a `not` with exactly one operand is active exactly when the operand is
/// inactive, inactive exactly when the operand is active, and unknown exactly when the
/// operand is unknown (so `not(test)` is active in a configuration where `test` is
/// inactive).
pub proof fn law_not_negates(st: Settings, keyword: String, operands: Vec<Predicate>)
    requires
        keyword@ == "not"@,
        operands@.len() == 1,
    ensures
        ({
            let outer = predicate_status(st, Predicate::Composite(Some(keyword), operands));
            let inner = predicate_status(st, operands@[0]);
            &&& (outer == CfgStatus::Active <==> inner == CfgStatus::Inactive)
            &&& (outer == CfgStatus::Inactive <==> inner == CfgStatus::Active)
            &&& (outer == CfgStatus::Unknown <==> inner == CfgStatus::Unknown)
        }),
{
    reveal_strlit("all");
    reveal_strlit("any");
    reveal_strlit("not");
    assert("not"@ != "all"@) by {
        assert("not"@[0] != "all"@[0]);
    }
    assert("not"@ != "any"@) by {
        assert("not"@[0] != "any"@[0]);
    }
}


proof fn lemma_statuses_index(st: Settings, s: Seq<Predicate>)
    ensures
        predicate_statuses(st, s).len() == s.len(),
        forall|k: int| 0 <= k < s.len() ==> #[trigger] predicate_statuses(st, s)[k] == predicate_status(st, s[k]),
    decreases s.len(),
{
    if s.len() > 0 {
        lemma_statuses_index(st, s.drop_last());
        assert forall|k: int| 0 <= k < s.len() implies #[trigger] predicate_statuses(st, s)[k] == predicate_status(st, s[k]) by {
            if k < s.len() - 1 {
                assert(s.drop_last()[k] == s[k]);
            }
        }
    }
}

/// Whether every operand has status `v` in `st`.
pub open spec fn all_operands(st: Settings, ops: Seq<Predicate>, v: CfgStatus) -> bool {
    forall|k: int| 0 <= k < ops.len() ==> predicate_status(st, #[trigger] ops[k]) == v
}

/// Whether some operand has status `v` in `st`.
pub open spec fn some_operand(st: Settings, ops: Seq<Predicate>, v: CfgStatus) -> bool {
    exists|k: int| 0 <= k < ops.len() && predicate_status(st, #[trigger] ops[k]) == v
}

/// `all` is active exactly when every operand is active and inactive exactly when some
/// operand is inactive; `any` is active exactly when some operand is active and inactive
/// exactly when every operand is inactive. Otherwise the result is unknown.
pub proof fn law_all_and_any_combine(st: Settings, keyword: String, operands: Vec<Predicate>)
    requires
        keyword@ == "all"@ || keyword@ == "any"@,
    ensures
        ({
            let outer = predicate_status(st, Predicate::Composite(Some(keyword), operands));
            let ops = operands@;
            &&& keyword@ == "all"@ ==> (outer == CfgStatus::Active <==> all_operands(st, ops, CfgStatus::Active))
                && (outer == CfgStatus::Inactive <==> some_operand(st, ops, CfgStatus::Inactive))
            &&& keyword@ == "any"@ ==> (outer == CfgStatus::Active <==> some_operand(st, ops, CfgStatus::Active))
                && (outer == CfgStatus::Inactive <==> all_operands(st, ops, CfgStatus::Inactive))
        }),
{
    reveal_strlit("all");
    reveal_strlit("any");
    assert("all"@ != "any"@) by {
        assert("all"@[1] != "any"@[1]);
    }
    let ops = operands@;
    let vs = predicate_statuses(st, ops);
    lemma_statuses_index(st, ops);
    assert forall|v: CfgStatus| vs.contains(v) <==> some_operand(st, ops, v) by {
        if vs.contains(v) {
            let k = choose|k: int| 0 <= k < vs.len() && vs[k] == v;
            assert(predicate_status(st, ops[k]) == v);
        }
        if some_operand(st, ops, v) {
            let k = choose|k: int| 0 <= k < ops.len() && predicate_status(st, #[trigger] ops[k]) == v;
            assert(vs[k] == v);
        }
    }
    assert forall|v: CfgStatus| all_operands(st, ops, v) <==> (forall|w: CfgStatus| w != v ==> !vs.contains(w)) by {
        if all_operands(st, ops, v) {
            assert forall|w: CfgStatus| w != v implies !vs.contains(w) by {
                if vs.contains(w) {
                    let k = choose|k: int| 0 <= k < vs.len() && vs[k] == w;
                    assert(predicate_status(st, ops[k]) == v);
                }
            }
        }
        if forall|w: CfgStatus| w != v ==> !vs.contains(w) {
            assert forall|k: int| 0 <= k < ops.len() implies predicate_status(st, #[trigger] ops[k]) == v by {
                let w = vs[k];
                assert(vs.contains(w));
            }
        }
    }
}


/// A `not` without exactly one operand decides nothing: its status is unknown.
pub proof fn law_not_needs_one_operand(st: Settings, keyword: String, operands: Vec<Predicate>)
    requires
        keyword@ == "not"@,
        operands@.len() != 1,
    ensures
        predicate_status(st, Predicate::Composite(Some(keyword), operands)) == CfgStatus::Unknown,
{
    reveal_strlit("all");
    reveal_strlit("any");
    reveal_strlit("not");
    assert("not"@ != "all"@) by {
        assert("not"@[0] != "all"@[0]);
    }
    assert("not"@ != "any"@) by {
        assert("not"@[0] != "any"@[0]);
    }
}

} // verus!
