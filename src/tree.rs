use vstd::prelude::*;

use crate::error::TrustlateError;

verus! {

/// The keyed children of a branch, as mathematical values.
pub type Entries = Seq<(Seq<char>, NodeView)>;

/// A sequence of keys leading from the root of a tree to one of its nodes.
pub type Path = Seq<Seq<char>>;

/// What a leaf holds, as mathematical values.
pub enum LeafView {
    Literal(Seq<char>),
    Parametrized { parameters: Seq<Seq<char>>, raw: Seq<char> },
}

/// What a node holds: a leaf, or an ordered list of keyed children.
pub enum NodeView {
    Branch(Seq<(Seq<char>, NodeView)>),
    Leaf(LeafView),
}

#[derive(Debug, Clone, PartialEq, Eq)]
pub enum LeafType {
    LiteralLeaf(String),
    ParametrizedLeaf { parameters: Vec<String>, raw: String },
}

#[derive(Debug, PartialEq, Eq)]
pub enum TranslationTreeNode {
    NonLeaf(Vec<(String, TranslationTreeNode)>),
    Leaf(LeafType),
}

pub open spec fn strings_view(v: Seq<String>) -> Seq<Seq<char>> {
    v.map_values(|s: String| s@)
}

impl View for LeafType {
    type V = LeafView;

    open spec fn view(&self) -> LeafView {
        match self {
            LeafType::LiteralLeaf(s) => LeafView::Literal(s@),
            LeafType::ParametrizedLeaf { parameters, raw } => LeafView::Parametrized {
                parameters: strings_view(parameters@),
                raw: raw@,
            },
        }
    }
}

pub open spec fn node_view(n: TranslationTreeNode) -> NodeView
    decreases n,
{
    match n {
        TranslationTreeNode::NonLeaf(es) => NodeView::Branch(entries_view(es@)),
        TranslationTreeNode::Leaf(l) => NodeView::Leaf(l@),
    }
}

pub open spec fn entries_view(es: Seq<(String, TranslationTreeNode)>) -> Seq<(Seq<char>, NodeView)>
    decreases es,
{
    if es.len() == 0 {
        Seq::empty()
    } else {
        entries_view(es.drop_last()).push((es.last().0@, node_view(es.last().1)))
    }
}

impl View for TranslationTreeNode {
    type V = NodeView;

    open spec fn view(&self) -> NodeView {
        node_view(*self)
    }
}

/// One translation document: the keyed top-level entries of a locale.
#[derive(Debug, PartialEq, Eq)]
pub struct TranslationsTree {
    pub children: Vec<(String, TranslationTreeNode)>,
}

impl View for TranslationsTree {
    type V = Entries;

    open spec fn view(&self) -> Entries {
        entries_view(self.children@)
    }
}

pub proof fn lemma_entries_view(es: Seq<(String, TranslationTreeNode)>)
    ensures
        entries_view(es).len() == es.len(),
        forall|i: int|
            0 <= i < es.len() ==> #[trigger] entries_view(es)[i] == (es[i].0@, node_view(es[i].1)),
    decreases es.len(),
{
    if es.len() > 0 {
        lemma_entries_view(es.drop_last());
        assert forall|i: int| 0 <= i < es.len() implies #[trigger] entries_view(es)[i] == (
        es[i].0@,
        node_view(es[i].1),
        ) by {
            if i < es.len() - 1 {
                assert(es.drop_last()[i] == es[i]);
            }
        }
    }
}

/// The position of the first entry with key `k`, or the length when there is none.
pub open spec fn first_index<V>(es: Seq<(Seq<char>, V)>, k: Seq<char>) -> int
    decreases es.len(),
{
    if es.len() == 0 {
        0
    } else if es[0].0 == k {
        0
    } else {
        1 + first_index(es.drop_first(), k)
    }
}

pub proof fn lemma_first_index<V>(es: Seq<(Seq<char>, V)>, k: Seq<char>)
    ensures
        0 <= first_index(es, k) <= es.len(),
        first_index(es, k) < es.len() ==> es[first_index(es, k)].0 == k,
        forall|j: int| 0 <= j < first_index(es, k) ==> es[j].0 != k,
    decreases es.len(),
{
    if es.len() > 0 && es[0].0 != k {
        lemma_first_index(es.drop_first(), k);
        assert forall|j: int| 0 <= j < first_index(es, k) implies es[j].0 != k by {
            if j > 0 {
                assert(es[j] == es.drop_first()[j - 1]);
            }
        }
    }
}

/// The child under key `k`: the first entry that carries it.
pub open spec fn lookup(es: Entries, k: Seq<char>) -> Option<NodeView> {
    let i = first_index(es, k);
    if i < es.len() {
        Some(es[i].1)
    } else {
        None
    }
}

/// Finds the position of the first child under `key`.
fn find_child(es: &Vec<(String, TranslationTreeNode)>, key: &String) -> (r: Option<usize>)
    ensures
        match r {
            Some(i) => i < es.len() && i == first_index(entries_view(es@), key@),
            None => first_index(entries_view(es@), key@) == es.len(),
        },
{
    proof {
        lemma_entries_view(es@);
        lemma_first_index(entries_view(es@), key@);
    }
    let mut i: usize = 0;
    while i < es.len()
        invariant
            i <= es.len(),
            entries_view(es@).len() == es.len(),
            forall|j: int| 0 <= j < es.len() ==> #[trigger] entries_view(es@)[j] == (es@[j].0@, node_view(es@[j].1)),
            forall|j: int| 0 <= j < i ==> entries_view(es@)[j].0 != key@,
            0 <= first_index(entries_view(es@), key@) <= es.len(),
            first_index(entries_view(es@), key@) < es.len() ==> entries_view(es@)[first_index(entries_view(es@), key@)].0 == key@,
            forall|j: int| 0 <= j < first_index(entries_view(es@), key@) ==> entries_view(es@)[j].0 != key@,
        decreases es.len() - i,
    {
        if es[i].0 == *key {
            assert(entries_view(es@)[i as int].0 == key@);
            return Some(i);
        }
        assert(entries_view(es@)[i as int].0 != key@);
        i += 1;
    }
    None
}

/// A location in a tree: the keys from the root down to a node.
#[derive(Debug, Clone, PartialEq, Eq)]
pub struct TreePath(pub Vec<String>);

impl View for TreePath {
    type V = Path;

    open spec fn view(&self) -> Path {
        strings_view(self.0@)
    }
}

/// Copies a list of strings.
pub fn copy_strings(v: &Vec<String>) -> (r: Vec<String>)
    ensures
        strings_view(r@) == strings_view(v@),
{
    let mut r: Vec<String> = Vec::new();
    let mut i: usize = 0;
    while i < v.len()
        invariant
            i <= v.len(),
            r.len() == i,
            forall|j: int| 0 <= j < i ==> #[trigger] r@[j]@ == v@[j]@,
        decreases v.len() - i,
    {
        r.push(v[i].clone());
        i += 1;
    }
    assert(strings_view(r@) =~= strings_view(v@));
    r
}

impl TreePath {
    pub fn new() -> (r: Self)
        ensures
            r@ == Seq::<Seq<char>>::empty(),
    {
        TreePath(Vec::new())
    }

    /// The path one step further down, under key `next`.
    pub fn walk(&self, next: &String) -> (r: Self)
        ensures
            r@ == self@.push(next@),
    {
        let mut current = copy_strings(&self.0);
        current.push(next.clone());
        proof {
            assert(strings_view(current@) == strings_view(self.0@).push(next@));
        }
        TreePath(current)
    }

    /// The keys of this path separated by arrows, as reports show a location.
    pub fn display_text(&self) -> (r: String)
        ensures
            r@ == crate::text::join(self@, " -> "@),
    {
        crate::text::join_strings(&self.0, " -> ")
    }

    /// The keys of this path, from the root down.
    pub fn segments(&self) -> (r: &Vec<String>)
        ensures
            strings_view(r@) == self@,
    {
        &self.0
    }
}

/// A structural discrepancy of a target tree against a base tree, as mathematical values.
pub enum DiffView {
    MissingNode(Path),
    DifferentNodeType(Path),
    DifferentParameters(Path),
}

/// A structural discrepancy of a target tree against a base tree.
#[derive(Debug, Clone, PartialEq, Eq)]
pub enum TreeComparisonDifference {
    /// The target has no node where the base has one.
    MissingNode(TreePath),
    /// One side has a leaf where the other has a branch.
    DifferentNodeType(TreePath),
    /// Both sides have a leaf, with different sets of parameter names.
    DifferentParameters(TreePath),
}

impl View for TreeComparisonDifference {
    type V = DiffView;

    open spec fn view(&self) -> DiffView {
        match self {
            TreeComparisonDifference::MissingNode(p) => DiffView::MissingNode(p@),
            TreeComparisonDifference::DifferentNodeType(p) => DiffView::DifferentNodeType(p@),
            TreeComparisonDifference::DifferentParameters(p) => DiffView::DifferentParameters(p@),
        }
    }
}

pub open spec fn diffs_view(ds: Seq<TreeComparisonDifference>) -> Seq<DiffView> {
    ds.map_values(|d: TreeComparisonDifference| d@)
}

/// The parameter names of a leaf; a literal has none.
pub open spec fn leaf_parameters(l: LeafView) -> Seq<Seq<char>> {
    match l {
        LeafView::Literal(_) => Seq::empty(),
        LeafView::Parametrized { parameters, .. } => parameters,
    }
}

/// Two lists of names hold the same set of names.
pub open spec fn same_names(a: Seq<Seq<char>>, b: Seq<Seq<char>>) -> bool {
    &&& forall|i: int| 0 <= i < a.len() ==> b.contains(#[trigger] a[i])
    &&& forall|j: int| 0 <= j < b.len() ==> a.contains(#[trigger] b[j])
}

/// The differences of target node `t` against base node `b`, found at `path`, in pre-order.
pub open spec fn node_differences(b: NodeView, t: NodeView, path: Path) -> Seq<DiffView>
    decreases b,
{
    match b {
        NodeView::Branch(bes) => match t {
            NodeView::Branch(tes) => entries_differences(bes, tes, path),
            NodeView::Leaf(_) => seq![DiffView::DifferentNodeType(path)],
        },
        NodeView::Leaf(bl) => match t {
            NodeView::Branch(_) => seq![DiffView::DifferentNodeType(path)],
            NodeView::Leaf(tl) => if same_names(leaf_parameters(bl), leaf_parameters(tl)) {
                Seq::empty()
            } else {
                seq![DiffView::DifferentParameters(path)]
            },
        },
    }
}

/// The differences of target children `tes` against base children `bes` under `path`:
/// the base's keys are visited in order, and the target's other keys are never looked at.
pub open spec fn entries_differences(bes: Entries, tes: Entries, path: Path) -> Seq<DiffView>
    decreases bes,
{
    if bes.len() == 0 {
        Seq::empty()
    } else {
        let k = bes.last().0;
        entries_differences(bes.drop_last(), tes, path) + match lookup(tes, k) {
            Some(tn) => node_differences(bes.last().1, tn, path.push(k)),
            None => seq![DiffView::MissingNode(path.push(k))],
        }
    }
}

/// Whether `s` is among `v`.
pub fn contains_string(v: &Vec<String>, s: &String) -> (r: bool)
    ensures
        r == strings_view(v@).contains(s@),
{
    let mut i: usize = 0;
    while i < v.len()
        invariant
            i <= v.len(),
            forall|j: int| 0 <= j < i ==> v@[j]@ != s@,
        decreases v.len() - i,
    {
        if v[i] == *s {
            proof {
                assert(strings_view(v@)[i as int] == s@);
            }
            return true;
        }
        i += 1;
    }
    proof {
        if strings_view(v@).contains(s@) {
            let j = choose|j: int| 0 <= j < strings_view(v@).len() && strings_view(v@)[j] == s@;
            assert(v@[j]@ == s@);
        }
    }
    false
}

/// Whether every name of `a` is among `b`.
fn all_contained(a: &Vec<String>, b: &Vec<String>) -> (r: bool)
    ensures
        r == forall|i: int|
            0 <= i < a.len() ==> strings_view(b@).contains(#[trigger] strings_view(a@)[i]),
{
    let mut i: usize = 0;
    while i < a.len()
        invariant
            i <= a.len(),
            forall|j: int|
                0 <= j < i ==> strings_view(b@).contains(#[trigger] strings_view(a@)[j]),
        decreases a.len() - i,
    {
        if !contains_string(b, &a[i]) {
            assert(!strings_view(b@).contains(strings_view(a@)[i as int]));
            return false;
        }
        i += 1;
    }
    true
}

/// Whether two leaves have the same set of parameter names.
fn same_parameters(a: &LeafType, b: &LeafType) -> (r: bool)
    ensures
        r == same_names(leaf_parameters(a@), leaf_parameters(b@)),
{
    let none: Vec<String> = Vec::new();
    let pa = match a {
        LeafType::LiteralLeaf(_) => &none,
        LeafType::ParametrizedLeaf { parameters, .. } => parameters,
    };
    let pb = match b {
        LeafType::LiteralLeaf(_) => &none,
        LeafType::ParametrizedLeaf { parameters, .. } => parameters,
    };
    assert(strings_view(pa@) == leaf_parameters(a@));
    assert(strings_view(pb@) == leaf_parameters(b@));
    all_contained(pa, pb) && all_contained(pb, pa)
}

impl TranslationsTree {
    /// The differences of `other` against this tree, which serves as the base.
    pub fn compare(&self, other: &TranslationsTree) -> (r: Vec<TreeComparisonDifference>)
        ensures
            diffs_view(r@) == entries_differences(self@, other@, Seq::empty()),
    {
        let mut differences: Vec<TreeComparisonDifference> = Vec::new();
        let path = TreePath::new();
        Self::compare_entries(&self.children, &other.children, &path, &mut differences);
        differences
    }

    fn compare_entries(
        base: &Vec<(String, TranslationTreeNode)>,
        other: &Vec<(String, TranslationTreeNode)>,
        path: &TreePath,
        differences: &mut Vec<TreeComparisonDifference>,
    )
        ensures
            diffs_view(final(differences)@) == diffs_view(old(differences)@) + entries_differences(
                entries_view(base@),
                entries_view(other@),
                path@,
            ),
        decreases base,
    {
        let ghost start = diffs_view(differences@);
        proof {
            lemma_entries_view(base@);
        }
        let mut i: usize = 0;
        while i < base.len()
            invariant
                i <= base.len(),
                entries_view(base@).len() == base.len(),
                forall|j: int|
                    0 <= j < base.len() ==> #[trigger] entries_view(base@)[j] == (
                        base@[j].0@,
                        node_view(base@[j].1),
                    ),
                diffs_view(differences@) == start + entries_differences(
                    entries_view(base@).take(i as int),
                    entries_view(other@),
                    path@,
                ),
            decreases base.len() - i,
        {
            let key = &base[i].0;
            let child_path = path.walk(key);
            let ghost before = diffs_view(differences@);
            match find_child(other, key) {
                None => {
                    differences.push(TreeComparisonDifference::MissingNode(child_path));
                    proof {
                        assert(diffs_view(differences@) =~= before + seq![
                            DiffView::MissingNode(path@.push(key@)),
                        ]);
                        assert(diffs_view(differences@) == before + seq![
                            DiffView::MissingNode(path@.push(key@)),
                        ]);
                    }
                },
                Some(j) => {
                    proof {
                        lemma_entries_view(other@);
                    }
                    Self::compare_rec(&base[i].1, &other[j].1, &child_path, differences);
                },
            }
            proof {
                let es = entries_view(base@);
                lemma_entries_view(other@);
                lemma_first_index(entries_view(other@), key@);
                assert(es.take(i + 1).drop_last() == es.take(i as int));
                assert(es.take(i + 1).last() == es[i as int]);
                assert(es[i as int].0 == key@);
                assert(child_path@ == path@.push(key@));
            }
            i += 1;
        }
        proof {
            assert(entries_view(base@).take(base.len() as int) == entries_view(base@));
        }
    }

    fn compare_rec(
        base: &TranslationTreeNode,
        other: &TranslationTreeNode,
        path: &TreePath,
        differences: &mut Vec<TreeComparisonDifference>,
    )
        ensures
            diffs_view(final(differences)@) == diffs_view(old(differences)@) + node_differences(
                base@,
                other@,
                path@,
            ),
        decreases base,
    {
        let ghost before = diffs_view(differences@);
        match base {
            TranslationTreeNode::NonLeaf(base_children) => match other {
                TranslationTreeNode::NonLeaf(other_children) => {
                    Self::compare_entries(base_children, other_children, path, differences);
                },
                TranslationTreeNode::Leaf(_) => {
                    differences.push(
                        TreeComparisonDifference::DifferentNodeType(TreePath(copy_strings(&path.0))),
                    );
                    proof {
                        assert(diffs_view(differences@) == before + seq![
                            DiffView::DifferentNodeType(path@),
                        ]);
                    }
                },
            },
            TranslationTreeNode::Leaf(base_leaf) => match other {
                TranslationTreeNode::NonLeaf(_) => {
                    differences.push(
                        TreeComparisonDifference::DifferentNodeType(TreePath(copy_strings(&path.0))),
                    );
                    proof {
                        assert(diffs_view(differences@) == before + seq![
                            DiffView::DifferentNodeType(path@),
                        ]);
                    }
                },
                TranslationTreeNode::Leaf(other_leaf) => {
                    if !same_parameters(base_leaf, other_leaf) {
                        differences.push(
                            TreeComparisonDifference::DifferentParameters(
                                TreePath(copy_strings(&path.0)),
                            ),
                        );
                        proof {
                            assert(diffs_view(differences@) == before + seq![
                                DiffView::DifferentParameters(path@),
                            ]);
                        }
                    } else {
                        assert(diffs_view(differences@) == before + Seq::<DiffView>::empty());
                    }
                },
            },
        }
    }
}

/// Comparison is a function of the two trees' contents: trees with the same contents give the
/// same differences, in the same order, however often they are compared.
pub proof fn lemma_compare_deterministic(
    base1: TranslationsTree,
    target1: TranslationsTree,
    base2: TranslationsTree,
    target2: TranslationsTree,
)
    requires
        base1@ == base2@,
        target1@ == target2@,
    ensures
        entries_differences(base1@, target1@, Seq::empty()) == entries_differences(
            base2@,
            target2@,
            Seq::empty(),
        ),
{
}

/// A node with every leaf beneath it turned into the literal `f`.
pub open spec fn blank(n: NodeView, f: Seq<char>) -> NodeView
    decreases n,
{
    match n {
        NodeView::Leaf(_) => NodeView::Leaf(LeafView::Literal(f)),
        NodeView::Branch(es) => NodeView::Branch(blank_entries(es, f)),
    }
}

pub open spec fn blank_entries(es: Entries, f: Seq<char>) -> Entries
    decreases es,
{
    if es.len() == 0 {
        Seq::empty()
    } else {
        blank_entries(es.drop_last(), f).push((es.last().0, blank(es.last().1, f)))
    }
}

pub proof fn lemma_blank_entries(es: Entries, f: Seq<char>)
    ensures
        blank_entries(es, f).len() == es.len(),
        forall|i: int|
            0 <= i < es.len() ==> #[trigger] blank_entries(es, f)[i] == (es[i].0, blank(es[i].1, f)),
    decreases es.len(),
{
    if es.len() > 0 {
        lemma_blank_entries(es.drop_last(), f);
        assert forall|i: int| 0 <= i < es.len() implies #[trigger] blank_entries(es, f)[i] == (
        es[i].0,
        blank(es[i].1, f),
        ) by {
            if i < es.len() - 1 {
                assert(es.drop_last()[i] == es[i]);
            }
        }
    }
}

/// The node at path `p` below the children `es`; the empty path leads nowhere.
pub open spec fn node_at(es: Entries, p: Path) -> Option<NodeView>
    decreases p.len(),
{
    if p.len() == 0 {
        None
    } else {
        match lookup(es, p[0]) {
            None => None,
            Some(c) => if p.len() == 1 {
                Some(c)
            } else {
                match c {
                    NodeView::Branch(ces) => node_at(ces, p.drop_first()),
                    NodeView::Leaf(_) => None,
                }
            },
        }
    }
}

/// The children `es` with node `n` placed under key `k`: in place of the first entry with
/// that key, or appended when there is none.
pub open spec fn put(es: Entries, k: Seq<char>, n: NodeView) -> Entries {
    let i = first_index(es, k);
    if i < es.len() {
        es.update(i, (k, n))
    } else {
        es.push((k, n))
    }
}

/// The children `es` with `n` inserted at path `p`, whose parent must be an existing branch.
pub open spec fn insert_at(es: Entries, p: Path, n: NodeView) -> Option<Entries>
    decreases p.len(),
{
    if p.len() == 0 {
        None
    } else if p.len() == 1 {
        Some(put(es, p[0], n))
    } else {
        let i = first_index(es, p[0]);
        if i < es.len() {
            match es[i].1 {
                NodeView::Branch(ces) => match insert_at(ces, p.drop_first(), n) {
                    Some(nc) => Some(es.update(i, (p[0], NodeView::Branch(nc)))),
                    None => None,
                },
                NodeView::Leaf(_) => None,
            }
        } else {
            None
        }
    }
}

/// The children `es` with the node at path `p`, which must exist, replaced by `n`.
pub open spec fn replace_at(es: Entries, p: Path, n: NodeView) -> Option<Entries>
    decreases p.len(),
{
    if p.len() == 0 {
        None
    } else {
        let i = first_index(es, p[0]);
        if i < es.len() {
            if p.len() == 1 {
                Some(es.update(i, (p[0], n)))
            } else {
                match es[i].1 {
                    NodeView::Branch(ces) => match replace_at(ces, p.drop_first(), n) {
                        Some(nc) => Some(es.update(i, (p[0], NodeView::Branch(nc)))),
                        None => None,
                    },
                    NodeView::Leaf(_) => None,
                }
            }
        } else {
            None
        }
    }
}

/// The target children `ts` repaired for one difference against the base children `bs`.
pub open spec fn apply_difference(ts: Entries, bs: Entries, d: DiffView, f: Seq<char>) -> Result<
    Entries,
    TrustlateError,
> {
    match d {
        DiffView::MissingNode(p) => match node_at(bs, p) {
            None => Err(TrustlateError::PathNotFound),
            Some(bn) => match insert_at(ts, p, blank(bn, f)) {
                Some(r) => Ok(r),
                None => Err(TrustlateError::ParentMissing),
            },
        },
        DiffView::DifferentNodeType(p) => match node_at(bs, p) {
            None => Err(TrustlateError::PathNotFound),
            Some(bn) => match replace_at(ts, p, blank(bn, f)) {
                Some(r) => Ok(r),
                None => Err(TrustlateError::PathNotFound),
            },
        },
        DiffView::DifferentParameters(_) => Ok(ts),
    }
}

/// The target children `ts` repaired for each difference of `ds` in turn; the first failure
/// ends the work.
pub open spec fn apply_differences(ts: Entries, bs: Entries, ds: Seq<DiffView>, f: Seq<char>) -> Result<
    Entries,
    TrustlateError,
>
    decreases ds.len(),
{
    if ds.len() == 0 {
        Ok(ts)
    } else {
        match apply_differences(ts, bs, ds.drop_last(), f) {
            Ok(t) => apply_difference(t, bs, ds.last(), f),
            Err(e) => Err(e),
        }
    }
}

impl TranslationTreeNode {
    /// A copy of this node.
    pub fn duplicate(&self) -> (r: Self)
        ensures
            r@ == self@,
        decreases self,
    {
        match self {
            TranslationTreeNode::Leaf(l) => TranslationTreeNode::Leaf(
                match l {
                    LeafType::LiteralLeaf(t) => LeafType::LiteralLeaf(t.clone()),
                    LeafType::ParametrizedLeaf { parameters, raw } => LeafType::ParametrizedLeaf {
                        parameters: copy_strings(parameters),
                        raw: raw.clone(),
                    },
                },
            ),
            TranslationTreeNode::NonLeaf(children) => TranslationTreeNode::NonLeaf(
                copy_entries(children),
            ),
        }
    }

    /// A copy of this node with every leaf beneath it turned into the literal `blank_val`.
    pub fn blanked(&self, blank_val: &String) -> (r: Self)
        ensures
            r@ == blank(self@, blank_val@),
        decreases self,
    {
        match self {
            TranslationTreeNode::Leaf(_) => TranslationTreeNode::Leaf(
                LeafType::LiteralLeaf(blank_val.clone()),
            ),
            TranslationTreeNode::NonLeaf(children) => TranslationTreeNode::NonLeaf(
                blanked_entries(children, blank_val),
            ),
        }
    }

    /// Turns every leaf beneath this node into the literal `blank_val`, dropping the
    /// parameters of parametrized leaves.
    pub fn blank_values(&mut self, blank_val: &String)
        ensures
            final(self)@ == blank(old(self)@, blank_val@),
    {
        *self = self.blanked(blank_val);
    }
}

/// A copy of a list of children with every leaf beneath them turned into the literal `blank_val`.
pub fn blanked_entries(es: &Vec<(String, TranslationTreeNode)>, blank_val: &String) -> (r: Vec<
    (String, TranslationTreeNode),
>)
    ensures
        entries_view(r@) == blank_entries(entries_view(es@), blank_val@),
    decreases es,
{
    let mut out: Vec<(String, TranslationTreeNode)> = Vec::new();
    let mut i: usize = 0;
    while i < es.len()
        invariant
            i <= es.len(),
            out.len() == i,
            forall|j: int|
                0 <= j < i ==> (#[trigger] out@[j].0@, node_view(out@[j].1)) == (
                    es@[j].0@,
                    blank(node_view(es@[j].1), blank_val@),
                ),
        decreases es.len() - i,
    {
        let b = es[i].1.blanked(blank_val);
        out.push((es[i].0.clone(), b));
        i += 1;
    }
    proof {
        lemma_entries_view(out@);
        lemma_entries_view(es@);
        lemma_blank_entries(entries_view(es@), blank_val@);
        assert(entries_view(out@) =~= blank_entries(entries_view(es@), blank_val@));
    }
    out
}

/// A copy of a list of children.
pub fn copy_entries(es: &Vec<(String, TranslationTreeNode)>) -> (r: Vec<(String, TranslationTreeNode)>)
    ensures
        entries_view(r@) == entries_view(es@),
    decreases es,
{
    let mut out: Vec<(String, TranslationTreeNode)> = Vec::new();
    let mut i: usize = 0;
    while i < es.len()
        invariant
            i <= es.len(),
            out.len() == i,
            forall|j: int|
                0 <= j < i ==> (#[trigger] out@[j].0@, node_view(out@[j].1)) == (
                    es@[j].0@,
                    node_view(es@[j].1),
                ),
        decreases es.len() - i,
    {
        let c = es[i].1.duplicate();
        out.push((es[i].0.clone(), c));
        i += 1;
    }
    proof {
        lemma_entries_view(out@);
        lemma_entries_view(es@);
        assert(entries_view(out@) =~= entries_view(es@));
    }
    out
}

fn node_at_in<'a>(es: &'a Vec<(String, TranslationTreeNode)>, path: &Vec<String>, d: usize) -> (r:
    Result<&'a TranslationTreeNode, TrustlateError>)
    requires
        d <= path.len(),
    ensures
        match node_at(entries_view(es@), strings_view(path@).skip(d as int)) {
            Some(n) => r matches Ok(x) && x@ == n,
            None => r matches Err(e) && e == TrustlateError::PathNotFound,
        },
    decreases path.len() - d,
{
    let ghost p = strings_view(path@).skip(d as int);
    if d >= path.len() {
        return Err(TrustlateError::PathNotFound);
    }
    proof {
        lemma_entries_view(es@);
        assert(p[0] == path@[d as int]@);
        assert(p.drop_first() =~= strings_view(path@).skip(d + 1));
    }
    match find_child(es, &path[d]) {
        None => Err(TrustlateError::PathNotFound),
        Some(i) => {
            if d + 1 == path.len() {
                Ok(&es[i].1)
            } else {
                match &es[i].1 {
                    TranslationTreeNode::NonLeaf(children) => node_at_in(children, path, d + 1),
                    TranslationTreeNode::Leaf(_) => Err(TrustlateError::PathNotFound),
                }
            }
        },
    }
}

fn insert_in(es: &mut Vec<(String, TranslationTreeNode)>, path: &Vec<String>, d: usize, node: TranslationTreeNode) -> (r: Result<(), TrustlateError>)
    requires
        d <= path.len(),
    ensures
        match insert_at(entries_view(old(es)@), strings_view(path@).skip(d as int), node@) {
            Some(t) => r is Ok && entries_view(final(es)@) == t,
            None => r == Err::<(), TrustlateError>(TrustlateError::ParentMissing) && entries_view(final(es)@) == entries_view(old(es)@),
        },
    decreases path.len() - d,
{
    let ghost p = strings_view(path@).skip(d as int);
    let ghost old_es = es@;
    if d >= path.len() {
        return Err(TrustlateError::ParentMissing);
    }
    proof {
        lemma_entries_view(es@);
        assert(p[0] == path@[d as int]@);
        assert(p.drop_first() =~= strings_view(path@).skip(d + 1));
    }
    let found = find_child(es, &path[d]);
    if d + 1 == path.len() {
        match found {
            Some(i) => {
                es.set(i, (path[d].clone(), node));
            },
            None => {
                es.push((path[d].clone(), node));
            },
        }
        proof {
            lemma_entries_view(es@);
            assert(entries_view(es@) =~= put(entries_view(old_es), p[0], node@));
        }
        return Ok(());
    }
    match found {
        None => Err(TrustlateError::ParentMissing),
        Some(i) => {
            let mut entry = (String::new(), TranslationTreeNode::NonLeaf(Vec::new()));
            std::mem::swap(&mut es[i], &mut entry);
            let (k, child) = entry;
            match child {
                TranslationTreeNode::NonLeaf(mut children) => {
                    let r = insert_in(&mut children, path, d + 1, node);
                    es.set(i, (k, TranslationTreeNode::NonLeaf(children)));
                    proof {
                        lemma_entries_view(es@);
                        lemma_first_index(entries_view(old_es), p[0]);
                        if r is Ok {
                            assert(entries_view(es@) =~= entries_view(old_es).update(
                                i as int,
                                (p[0], NodeView::Branch(entries_view(children@))),
                            ));
                        } else {
                            assert(entries_view(es@) =~= entries_view(old_es));
                        }
                    }
                    r
                },
                TranslationTreeNode::Leaf(l) => {
                    es.set(i, (k, TranslationTreeNode::Leaf(l)));
                    proof {
                        lemma_entries_view(es@);
                        assert(entries_view(es@) =~= entries_view(old_es));
                    }
                    Err(TrustlateError::ParentMissing)
                },
            }
        },
    }
}

fn replace_in(es: &mut Vec<(String, TranslationTreeNode)>, path: &Vec<String>, d: usize, node: TranslationTreeNode) -> (r: Result<(), TrustlateError>)
    requires
        d <= path.len(),
    ensures
        match replace_at(entries_view(old(es)@), strings_view(path@).skip(d as int), node@) {
            Some(t) => r is Ok && entries_view(final(es)@) == t,
            None => r == Err::<(), TrustlateError>(TrustlateError::PathNotFound) && entries_view(final(es)@) == entries_view(old(es)@),
        },
    decreases path.len() - d,
{
    let ghost p = strings_view(path@).skip(d as int);
    let ghost old_es = es@;
    if d >= path.len() {
        return Err(TrustlateError::PathNotFound);
    }
    proof {
        lemma_entries_view(es@);
        assert(p[0] == path@[d as int]@);
        assert(p.drop_first() =~= strings_view(path@).skip(d + 1));
    }
    match find_child(es, &path[d]) {
        None => Err(TrustlateError::PathNotFound),
        Some(i) => {
            proof {
                lemma_first_index(entries_view(old_es), p[0]);
            }
            if d + 1 == path.len() {
                es.set(i, (path[d].clone(), node));
                proof {
                    lemma_entries_view(es@);
                    assert(entries_view(es@) =~= entries_view(old_es).update(i as int, (p[0], node@)));
                }
                return Ok(());
            }
            let mut entry = (String::new(), TranslationTreeNode::NonLeaf(Vec::new()));
            std::mem::swap(&mut es[i], &mut entry);
            let (k, child) = entry;
            match child {
                TranslationTreeNode::NonLeaf(mut children) => {
                    let r = replace_in(&mut children, path, d + 1, node);
                    es.set(i, (k, TranslationTreeNode::NonLeaf(children)));
                    proof {
                        lemma_entries_view(es@);
                        if r is Ok {
                            assert(entries_view(es@) =~= entries_view(old_es).update(
                                i as int,
                                (p[0], NodeView::Branch(entries_view(children@))),
                            ));
                        } else {
                            assert(entries_view(es@) =~= entries_view(old_es));
                        }
                    }
                    r
                },
                TranslationTreeNode::Leaf(l) => {
                    es.set(i, (k, TranslationTreeNode::Leaf(l)));
                    proof {
                        lemma_entries_view(es@);
                        assert(entries_view(es@) =~= entries_view(old_es));
                    }
                    Err(TrustlateError::PathNotFound)
                },
            }
        },
    }
}

/// Repairs the target children `work` for one difference against the base children `reference`.
fn apply_one(
    work: &mut Vec<(String, TranslationTreeNode)>,
    reference: &Vec<(String, TranslationTreeNode)>,
    diff: &TreeComparisonDifference,
    filling: &String,
) -> (r: Result<(), TrustlateError>)
    ensures
        match apply_difference(entries_view(old(work)@), entries_view(reference@), diff@, filling@) {
            Ok(t) => r is Ok && entries_view(final(work)@) == t,
            Err(e) => r == Err::<(), TrustlateError>(e),
        },
{
    match diff {
        TreeComparisonDifference::MissingNode(path) => {
            let base_node = node_at_in(reference, &path.0, 0);
            proof {
                assert(strings_view(path.0@).skip(0) =~= path@);
            }
            match base_node {
                Err(e) => Err(e),
                Ok(n) => {
                    let new_node = n.blanked(filling);
                    insert_in(work, &path.0, 0, new_node)
                },
            }
        },
        TreeComparisonDifference::DifferentNodeType(path) => {
            let base_node = node_at_in(reference, &path.0, 0);
            proof {
                assert(strings_view(path.0@).skip(0) =~= path@);
            }
            match base_node {
                Err(e) => Err(e),
                Ok(n) => {
                    let new_node = n.blanked(filling);
                    replace_in(work, &path.0, 0, new_node)
                },
            }
        },
        TreeComparisonDifference::DifferentParameters(_) => Ok(()),
    }
}

impl TranslationsTree {
    /// A copy of this tree.
    pub fn duplicate(&self) -> (r: Self)
        ensures
            r@ == self@,
    {
        TranslationsTree { children: copy_entries(&self.children) }
    }

    /// The node at `path`.
    pub fn get_node_at(&self, path: &TreePath) -> (r: Result<&TranslationTreeNode, TrustlateError>)
        ensures
            match node_at(self@, path@) {
                Some(n) => r matches Ok(x) && x@ == n,
                None => r matches Err(e) && e == TrustlateError::PathNotFound,
            },
    {
        proof {
            assert(strings_view(path.0@).skip(0) =~= path@);
        }
        node_at_in(&self.children, &path.0, 0)
    }

    /// Inserts `node` at `path`, whose parent must be an existing branch; on failure the tree
    /// is left as it was.
    pub fn insert_node_at(&mut self, node: TranslationTreeNode, path: &TreePath) -> (r: Result<
        (),
        TrustlateError,
    >)
        ensures
            match insert_at(old(self)@, path@, node@) {
                Some(t) => r is Ok && final(self)@ == t,
                None => r == Err::<(), TrustlateError>(TrustlateError::ParentMissing)
                    && final(self)@ == old(self)@,
            },
    {
        proof {
            assert(strings_view(path.0@).skip(0) =~= path@);
        }
        insert_in(&mut self.children, &path.0, 0, node)
    }

    /// Replaces the node at `path`, which must exist, by `node`; on failure the tree is left
    /// as it was.
    pub fn replace_node_at(&mut self, node: TranslationTreeNode, path: &TreePath) -> (r: Result<
        (),
        TrustlateError,
    >)
        ensures
            match replace_at(old(self)@, path@, node@) {
                Some(t) => r is Ok && final(self)@ == t,
                None => r == Err::<(), TrustlateError>(TrustlateError::PathNotFound)
                    && final(self)@ == old(self)@,
            },
    {
        proof {
            assert(strings_view(path.0@).skip(0) =~= path@);
        }
        replace_in(&mut self.children, &path.0, 0, node)
    }

    /// Repairs this tree, for each difference in turn, against `reference`: a missing node is
    /// inserted and a node of the wrong kind replaced, each as a copy of the reference's node
    /// with every leaf turned into the literal `filling_str`; a difference of parameters is
    /// left alone. On the first failure the tree is left as it was.
    pub fn harmonize(
        &mut self,
        reference: &TranslationsTree,
        differences: &Vec<TreeComparisonDifference>,
        filling_str: &str,
    ) -> (r: Result<(), TrustlateError>)
        ensures
            match apply_differences(old(self)@, reference@, diffs_view(differences@), filling_str@) {
                Ok(t) => r is Ok && final(self)@ == t,
                Err(e) => r == Err::<(), TrustlateError>(e) && final(self)@ == old(self)@,
            },
    {
        let filling = filling_str.to_owned();
        let mut work = copy_entries(&self.children);
        let ghost ds = diffs_view(differences@);
        let mut i: usize = 0;
        while i < differences.len()
            invariant
                i <= differences.len(),
                ds == diffs_view(differences@),
                filling@ == filling_str@,
                apply_differences(self@, reference@, ds.take(i as int), filling@) == Ok::<
                    Entries,
                    TrustlateError,
                >(entries_view(work@)),
            decreases differences.len() - i,
        {
            proof {
                assert(ds.take(i + 1).drop_last() =~= ds.take(i as int));
                assert(ds.take(i + 1).last() == differences@[i as int]@);
            }
            match apply_one(&mut work, &reference.children, &differences[i], &filling) {
                Err(e) => {
                    proof {
                        lemma_apply_failure_persists(self@, reference@, ds, filling@, i + 1);
                    }
                    return Err(e);
                },
                Ok(()) => {},
            }
            i += 1;
        }
        proof {
            assert(ds.take(differences.len() as int) =~= ds);
        }
        self.children = work;
        Ok(())
    }
}

/// Once a repair has failed, the later differences do not change the outcome.
proof fn lemma_apply_failure_persists(
    ts: Entries,
    bs: Entries,
    ds: Seq<DiffView>,
    f: Seq<char>,
    n: int,
)
    requires
        0 <= n <= ds.len(),
        apply_differences(ts, bs, ds.take(n), f) is Err,
    ensures
        apply_differences(ts, bs, ds, f) == apply_differences(ts, bs, ds.take(n), f),
    decreases ds.len() - n,
{
    if n < ds.len() {
        assert(ds.take(n + 1).drop_last() =~= ds.take(n));
        lemma_apply_failure_persists(ts, bs, ds, f, n + 1);
    } else {
        assert(ds.take(n) =~= ds);
    }
}

} // verus!
