use vstd::prelude::*;

use crate::error::TrustlateError;
use crate::tree::{
    entries_view, lemma_entries_view, node_view, TranslationTreeNode,
    TranslationsTree, blank, blank_entries, lemma_blank_entries,
    apply_difference, apply_differences, entries_differences, first_index, insert_at,
    lemma_first_index, lookup, node_at, node_differences, put, replace_at, DiffView, Entries,
    NodeView, Path,
};

verus! {

/// Keys are unique within every branch of a node.
pub open spec fn wf_node(n: NodeView) -> bool
    decreases n,
{
    match n {
        NodeView::Leaf(_) => true,
        NodeView::Branch(es) => wf_entries(es),
    }
}

/// Keys are unique among the entries and within every branch beneath them.
pub open spec fn wf_entries(es: Entries) -> bool
    decreases es,
{
    if es.len() == 0 {
        true
    } else {
        &&& wf_entries(es.drop_last())
        &&& wf_node(es.last().1)
        &&& first_index(es.drop_last(), es.last().0) == es.len() - 1
    }
}

pub proof fn lemma_wf_entries(es: Entries)
    requires
        wf_entries(es),
    ensures
        forall|i: int, j: int| 0 <= i < j < es.len() ==> es[i].0 != es[j].0,
        forall|i: int| 0 <= i < es.len() ==> wf_node(#[trigger] es[i].1),
    decreases es.len(),
{
    if es.len() > 0 {
        let d = es.drop_last();
        lemma_wf_entries(d);
        lemma_first_index(d, es.last().0);
        assert forall|i: int, j: int| 0 <= i < j < es.len() implies es[i].0 != es[j].0 by {
            assert(es[i] == d[i] || i == es.len() - 1);
            if j < es.len() - 1 {
                assert(es[i] == d[i] && es[j] == d[j]);
            } else {
                assert(d[i] == es[i]);
            }
        }
        assert forall|i: int| 0 <= i < es.len() implies wf_node(#[trigger] es[i].1) by {
            if i < es.len() - 1 {
                assert(es[i] == d[i]);
            }
        }
    }
}

/// A prefix with a repeated key has a repeated key in the whole.
proof fn lemma_wf_prefix(es: Entries, n: int)
    requires
        0 <= n <= es.len(),
        !wf_entries(es.take(n)),
    ensures
        !wf_entries(es),
    decreases es.len() - n,
{
    if n < es.len() {
        assert(es.take(n + 1).drop_last() =~= es.take(n));
        lemma_wf_prefix(es, n + 1);
    } else {
        assert(es.take(n) =~= es);
    }
}

/// Whether keys are unique within a node's branches.
fn node_has_unique_keys(n: &TranslationTreeNode) -> (r: bool)
    ensures
        r == wf_node(n@),
    decreases n,
{
    match n {
        TranslationTreeNode::Leaf(_) => true,
        TranslationTreeNode::NonLeaf(children) => entries_have_unique_keys(children),
    }
}

/// Whether keys are unique among the entries and within their branches.
fn entries_have_unique_keys(es: &Vec<(String, TranslationTreeNode)>) -> (r: bool)
    ensures
        r == wf_entries(entries_view(es@)),
    decreases es,
{
    let ghost ev = entries_view(es@);
    proof {
        lemma_entries_view(es@);
    }
    let mut i: usize = 0;
    while i < es.len()
        invariant
            i <= es.len(),
            ev == entries_view(es@),
            ev.len() == es.len(),
            forall|j: int|
                0 <= j < es.len() ==> #[trigger] ev[j] == (es@[j].0@, node_view(es@[j].1)),
            wf_entries(ev.take(i as int)),
        decreases es.len() - i,
    {
        let ghost pre = ev.take(i as int);
        proof {
            assert(ev.take(i + 1).drop_last() =~= pre);
            assert(ev.take(i + 1).last() == ev[i as int]);
            lemma_first_index(pre, ev[i as int].0);
        }
        let mut j: usize = 0;
        while j < i
            invariant
                j <= i < es.len(),
                ev == entries_view(es@),
                ev.len() == es.len(),
                pre == ev.take(i as int),
                forall|m: int|
                    0 <= m < es.len() ==> #[trigger] ev[m] == (es@[m].0@, node_view(es@[m].1)),
                forall|m: int| 0 <= m < j ==> pre[m].0 != ev[i as int].0,
            decreases i - j,
        {
            if es[j].0 == es[i].0 {
                proof {
                    assert(pre[j as int] == ev[j as int]);
                    assert(ev[j as int].0 == es@[j as int].0@);
                    assert(ev[i as int].0 == es@[i as int].0@);
                    assert(pre[j as int].0 == ev[i as int].0);
                    lemma_first_index(pre, ev[i as int].0);
                    assert(first_index(pre, ev[i as int].0) <= j);
                    assert(ev.take(i + 1).drop_last() =~= pre);
                    assert(ev.take(i + 1).last() == ev[i as int]);
                    assert(!wf_entries(ev.take(i + 1)));
                    lemma_wf_prefix(ev, i + 1);
                }
                return false;
            }
            proof {
                assert(pre[j as int] == ev[j as int]);
                assert(ev[j as int].0 == es@[j as int].0@);
                assert(ev[i as int].0 == es@[i as int].0@);
            }
            j += 1;
        }
        if !node_has_unique_keys(&es[i].1) {
            proof {
                assert(!wf_entries(ev.take(i + 1)));
                lemma_wf_prefix(ev, i + 1);
            }
            return false;
        }
        i += 1;
    }
    assert(ev.take(es.len() as int) =~= ev);
    true
}

impl TranslationsTree {
    /// Whether keys are unique within every branch of this tree, as a translation document's
    /// keys are.
    pub fn has_unique_keys(&self) -> (r: bool)
        ensures
            r == wf_entries(self@),
    {
        entries_have_unique_keys(&self.children)
    }
}

/// With unique keys, the entry at position `j` is the one found under its key.
proof fn lemma_unique_lookup(es: Entries, j: int)
    requires
        0 <= j < es.len(),
        forall|a: int, b: int| 0 <= a < b < es.len() ==> es[a].0 != es[b].0,
    ensures
        first_index(es, es[j].0) == j,
        lookup(es, es[j].0) == Some(es[j].1),
{
    lemma_first_index(es, es[j].0);
}

/// The location of a difference.
pub open spec fn diff_path(d: DiffView) -> Path {
    match d {
        DiffView::MissingNode(p) => p,
        DiffView::DifferentNodeType(p) => p,
        DiffView::DifferentParameters(p) => p,
    }
}

/// A difference that harmonization repairs by changing the target.
pub open spec fn mutating(d: DiffView) -> bool {
    !(d is DifferentParameters)
}

/// `q` is a prefix of `p`.
pub open spec fn is_prefix(q: Path, p: Path) -> bool {
    q.len() <= p.len() && p.take(q.len() as int) == q
}

/// The differences for one base entry against the target children `tes`.
pub open spec fn entry_differences(e: (Seq<char>, NodeView), tes: Entries, path: Path) -> Seq<
    DiffView,
> {
    match lookup(tes, e.0) {
        Some(tn) => node_differences(e.1, tn, path.push(e.0)),
        None => seq![DiffView::MissingNode(path.push(e.0))],
    }
}

/// Every difference among the children comes from one base entry.
proof fn lemma_entries_difference_source(bes: Entries, tes: Entries, path: Path, d: DiffView)
    requires
        entries_differences(bes, tes, path).contains(d),
    ensures
        exists|j: int| 0 <= j < bes.len() && #[trigger] entry_differences(bes[j], tes, path).contains(d),
    decreases bes.len(),
{
    let rest = entries_differences(bes.drop_last(), tes, path);
    let last = entry_differences(bes.last(), tes, path);
    assert(entries_differences(bes, tes, path) == rest + last);
    let i = choose|i: int| 0 <= i < (rest + last).len() && (rest + last)[i] == d;
    if i < rest.len() {
        assert(rest[i] == d);
        lemma_entries_difference_source(bes.drop_last(), tes, path, d);
        let j = choose|j: int|
            0 <= j < bes.drop_last().len() && #[trigger] entry_differences(
                bes.drop_last()[j],
                tes,
                path,
            ).contains(d);
        assert(bes.drop_last()[j] == bes[j]);
    } else {
        assert(last[i - rest.len()] == d);
        assert(entry_differences(bes[bes.len() - 1], tes, path).contains(d));
    }
}

/// Every difference found at or beneath `pp` lies at `pp` or beneath it.
proof fn lemma_difference_paths(b: NodeView, t: NodeView, pp: Path)
    ensures
        forall|d: DiffView| #[trigger]
            node_differences(b, t, pp).contains(d) ==> is_prefix(pp, diff_path(d)),
    decreases b,
{
    assert forall|d: DiffView| #[trigger]
        node_differences(b, t, pp).contains(d) implies is_prefix(pp, diff_path(d)) by {
        match b {
            NodeView::Branch(bes) => match t {
                NodeView::Branch(tes) => {
                    lemma_entries_difference_source(bes, tes, pp, d);
                    let j = choose|j: int|
                        0 <= j < bes.len() && #[trigger] entry_differences(
                            bes[j],
                            tes,
                            pp,
                        ).contains(d);
                    let k = bes[j].0;
                    match lookup(tes, k) {
                        Some(tn) => {
                            lemma_difference_paths(bes[j].1, tn, pp.push(k));
                            assert(is_prefix(pp.push(k), diff_path(d)));
                            assert(diff_path(d).take(pp.len() as int) =~= diff_path(d).take(
                                pp.len() as int + 1,
                            ).take(pp.len() as int));
                            assert(pp.push(k).take(pp.len() as int) =~= pp);
                        },
                        None => {
                            assert(d == DiffView::MissingNode(pp.push(k)));
                            assert(pp.push(k).take(pp.len() as int) =~= pp);
                        },
                    }
                },
                NodeView::Leaf(_) => {
                    assert(pp.take(pp.len() as int) =~= pp);
                },
            },
            NodeView::Leaf(_) => {
                assert(pp.take(pp.len() as int) =~= pp);
            },
        }
    }
}

/// Below a base leaf that the target also has as a leaf, with unique base keys, no repairing
/// difference lies at that leaf's path or above it.
proof fn lemma_differences_avoid_leaf(bes: Entries, tes: Entries, path: Path, pr: Path)
    requires
        wf_entries(bes),
        node_at(bes, pr) matches Some(NodeView::Leaf(_)),
        node_at(tes, pr) matches Some(NodeView::Leaf(_)),
    ensures
        forall|d: DiffView| #[trigger]
            entries_differences(bes, tes, path).contains(d) && mutating(d) ==> !is_prefix(
                diff_path(d),
                path + pr,
            ),
    decreases pr.len(),
{
    lemma_wf_entries(bes);
    assert forall|d: DiffView| #[trigger]
        entries_differences(bes, tes, path).contains(d) && mutating(d) implies !is_prefix(
        diff_path(d),
        path + pr,
    ) by {
        lemma_entries_difference_source(bes, tes, path, d);
        let j = choose|j: int|
            0 <= j < bes.len() && #[trigger] entry_differences(bes[j], tes, path).contains(d);
        let k = bes[j].0;
        if k != pr[0] {
            match lookup(tes, k) {
                Some(tn) => {
                    lemma_difference_paths(bes[j].1, tn, path.push(k));
                },
                None => {
                    assert(d == DiffView::MissingNode(path.push(k)));
                    assert(diff_path(d).take(path.len() as int + 1) =~= path.push(k));
                },
            }
            assert(is_prefix(path.push(k), diff_path(d)));
            let dp = diff_path(d);
            let full = path + pr;
            if is_prefix(dp, full) {
                assert(dp.take(path.len() as int + 1) == path.push(k));
                assert(dp[path.len() as int] == dp.take(path.len() as int + 1)[path.len() as int]);
                assert(dp[path.len() as int] == k);
                assert(full.take(dp.len() as int) == dp);
                assert(full[path.len() as int] == full.take(dp.len() as int)[path.len() as int]);
                assert(full[path.len() as int] == pr[0]);
                assert(false);
            }
        } else {
            lemma_unique_lookup(bes, j);
            let tn = lookup(tes, k)->Some_0;
            assert(entry_differences(bes[j], tes, path) == node_differences(
                bes[j].1,
                tn,
                path.push(k),
            ));
            if pr.len() == 1 {
                assert(bes[j].1 is Leaf);
                assert(tn is Leaf);
                let nd = node_differences(bes[j].1, tn, path.push(k));
                assert(nd.contains(d));
                if nd.len() == 0 {
                    assert(false);
                } else {
                    assert(nd == seq![DiffView::DifferentParameters(path.push(k))]);
                    assert(nd[0] == d);
                }
                assert(!mutating(d));
            } else {
                let bc = bes[j].1->Branch_0;
                let tc = tn->Branch_0;
                assert(wf_node(bes[j].1));
                assert(node_differences(bes[j].1, tn, path.push(k)) == entries_differences(
                    bc,
                    tc,
                    path.push(k),
                ));
                assert(entries_differences(bc, tc, path.push(k)).contains(d));
                lemma_differences_avoid_leaf(bc, tc, path.push(k), pr.drop_first());
                assert(path.push(k) + pr.drop_first() =~= path + pr);
            }
        }
    }
}

/// Entries with the same keys in the same places find every key at the same place.
proof fn lemma_same_keys_first_index(a: Entries, b: Entries, k: Seq<char>)
    requires
        a.len() == b.len(),
        forall|j: int| 0 <= j < a.len() ==> a[j].0 == b[j].0,
    ensures
        first_index(a, k) == first_index(b, k),
{
    lemma_first_index(a, k);
    lemma_first_index(b, k);
    let fa = first_index(a, k);
    let fb = first_index(b, k);
    if fa < fb {
        assert(a[fa].0 == b[fa].0);
    } else if fb < fa {
        assert(a[fb].0 == b[fb].0);
    }
}

/// Placing a node under one key does not change what another key finds.
proof fn lemma_put_lookup(es: Entries, k: Seq<char>, n: NodeView, k2: Seq<char>)
    requires
        k2 != k,
    ensures
        lookup(put(es, k, n), k2) == lookup(es, k2),
{
    let i = first_index(es, k);
    lemma_first_index(es, k);
    lemma_first_index(es, k2);
    if i < es.len() {
        let e2 = es.update(i, (k, n));
        lemma_same_keys_first_index(e2, es, k2);
    } else {
        let e2 = es.push((k, n));
        lemma_first_index(e2, k2);
        let f1 = first_index(es, k2);
        let f2 = first_index(e2, k2);
        if f2 < f1 {
            assert(e2[f2] == es[f2]);
        } else if f1 < f2 && f1 < es.len() {
            assert(e2[f1] == es[f1]);
        }
    }
}

/// An insertion at a path that is not a prefix of `p` leaves the leaf at `p` as it was.
proof fn lemma_insert_elsewhere(es: Entries, q: Path, n: NodeView, p: Path)
    requires
        insert_at(es, q, n) is Some,
        node_at(es, p) matches Some(NodeView::Leaf(_)),
        !is_prefix(q, p),
    ensures
        node_at(insert_at(es, q, n)->Some_0, p) == node_at(es, p),
    decreases q.len(),
{
    let es2 = insert_at(es, q, n)->Some_0;
    if q.len() == 1 {
        if q[0] == p[0] {
            assert(p.take(1) =~= q);
        }
        lemma_put_lookup(es, q[0], n, p[0]);
    } else {
        let i = first_index(es, q[0]);
        lemma_first_index(es, q[0]);
        let ces = es[i].1->Branch_0;
        let nc = insert_at(ces, q.drop_first(), n)->Some_0;
        assert(es2 == es.update(i, (q[0], NodeView::Branch(nc))));
        lemma_same_keys_first_index(es2, es, p[0]);
        lemma_first_index(es, p[0]);
        let m = first_index(es, p[0]);
        if p[0] != q[0] {
            if m < es.len() {
                assert(es2[m] == es[m]);
            }
        } else {
            assert(m == i);
            if !is_prefix(q.drop_first(), p.drop_first()) {
                lemma_insert_elsewhere(ces, q.drop_first(), n, p.drop_first());
            } else {
                assert(p.take(q.len() as int) =~= seq![p[0]] + p.drop_first().take(
                    q.len() - 1,
                ));
                assert(q =~= seq![q[0]] + q.drop_first());
            }
        }
    }
}

/// A replacement at a path that is not a prefix of `p` leaves the leaf at `p` as it was.
proof fn lemma_replace_elsewhere(es: Entries, q: Path, n: NodeView, p: Path)
    requires
        replace_at(es, q, n) is Some,
        node_at(es, p) matches Some(NodeView::Leaf(_)),
        !is_prefix(q, p),
    ensures
        node_at(replace_at(es, q, n)->Some_0, p) == node_at(es, p),
    decreases q.len(),
{
    let es2 = replace_at(es, q, n)->Some_0;
    let i = first_index(es, q[0]);
    lemma_first_index(es, q[0]);
    lemma_first_index(es, p[0]);
    let m = first_index(es, p[0]);
    if q.len() == 1 {
        assert(es2 == es.update(i, (q[0], n)));
        lemma_same_keys_first_index(es2, es, p[0]);
        if q[0] == p[0] {
            assert(p.take(1) =~= q);
        }
        if m < es.len() {
            assert(es2[m] == es[m]);
        }
    } else {
        let ces = es[i].1->Branch_0;
        let nc = replace_at(ces, q.drop_first(), n)->Some_0;
        assert(es2 == es.update(i, (q[0], NodeView::Branch(nc))));
        lemma_same_keys_first_index(es2, es, p[0]);
        if p[0] != q[0] {
            if m < es.len() {
                assert(es2[m] == es[m]);
            }
        } else {
            assert(m == i);
            if !is_prefix(q.drop_first(), p.drop_first()) {
                lemma_replace_elsewhere(ces, q.drop_first(), n, p.drop_first());
            } else {
                assert(p.take(q.len() as int) =~= seq![p[0]] + p.drop_first().take(
                    q.len() - 1,
                ));
                assert(q =~= seq![q[0]] + q.drop_first());
            }
        }
    }
}

/// Repairs away from a leaf leave that leaf as it was.
proof fn lemma_apply_elsewhere(
    ts: Entries,
    bs: Entries,
    ds: Seq<DiffView>,
    f: Seq<char>,
    p: Path,
)
    requires
        node_at(ts, p) matches Some(NodeView::Leaf(_)),
        forall|i: int|
            0 <= i < ds.len() && mutating(#[trigger] ds[i]) ==> !is_prefix(diff_path(ds[i]), p),
    ensures
        apply_differences(ts, bs, ds, f) matches Ok(t2) ==> node_at(t2, p) == node_at(ts, p),
    decreases ds.len(),
{
    if ds.len() > 0 {
        let init = ds.drop_last();
        assert forall|i: int| 0 <= i < init.len() && mutating(#[trigger] init[i]) implies !is_prefix(
            diff_path(init[i]),
            p,
        ) by {
            assert(init[i] == ds[i]);
        }
        lemma_apply_elsewhere(ts, bs, init, f, p);
        if let Ok(t) = apply_differences(ts, bs, init, f) {
            let d = ds.last();
            assert(d == ds[ds.len() - 1]);
            match d {
                DiffView::MissingNode(q) => {
                    if let Ok(t2) = apply_difference(t, bs, d, f) {
                        lemma_insert_elsewhere(t, q, crate::tree::blank(node_at(bs, q)->Some_0, f), p);
                    }
                },
                DiffView::DifferentNodeType(q) => {
                    if let Ok(t2) = apply_difference(t, bs, d, f) {
                        lemma_replace_elsewhere(t, q, crate::tree::blank(node_at(bs, q)->Some_0, f), p);
                    }
                },
                DiffView::DifferentParameters(_) => {},
            }
        }
    }
}

/// Value preservation: where the base and the target both hold a leaf at the same path, and
/// the base's keys are unique, repairing the target for the differences the comparison found
/// succeeds and leaves the target's leaf at that path exactly as it was.
pub proof fn lemma_harmonize_keeps_matching_leaves(
    base: TranslationsTree,
    target: TranslationsTree,
    filling: Seq<char>,
    p: Path,
)
    requires
        wf_entries(base@),
        node_at(base@, p) matches Some(NodeView::Leaf(_)),
        node_at(target@, p) matches Some(NodeView::Leaf(_)),
    ensures
        apply_differences(
            target@,
            base@,
            entries_differences(base@, target@, Seq::empty()),
            filling,
        ) matches Ok(t2) && node_at(t2, p) == node_at(target@, p),
{
    let ds = entries_differences(base@, target@, Seq::empty());
    lemma_harmonize_idempotent(base, target, filling);
    lemma_differences_avoid_leaf(base@, target@, Seq::empty(), p);
    assert(Seq::<Seq<char>>::empty() + p =~= p);
    assert forall|i: int| 0 <= i < ds.len() && mutating(#[trigger] ds[i]) implies !is_prefix(
        diff_path(ds[i]),
        p,
    ) by {
        assert(ds.contains(ds[i]));
    }
    lemma_apply_elsewhere(target@, base@, ds, filling, p);
}

/// A difference moved down below the path `pp`.
pub open spec fn shift_diff(pp: Path, d: DiffView) -> DiffView {
    match d {
        DiffView::MissingNode(p) => DiffView::MissingNode(pp + p),
        DiffView::DifferentNodeType(p) => DiffView::DifferentNodeType(pp + p),
        DiffView::DifferentParameters(p) => DiffView::DifferentParameters(pp + p),
    }
}

/// Differences moved down below the path `pp`.
pub open spec fn shift(pp: Path, ds: Seq<DiffView>) -> Seq<DiffView> {
    ds.map_values(|d: DiffView| shift_diff(pp, d))
}

proof fn lemma_shift_concat(pp: Path, a: Seq<DiffView>, b: Seq<DiffView>)
    ensures
        shift(pp, a + b) == shift(pp, a) + shift(pp, b),
{
    assert(shift(pp, a + b) =~= shift(pp, a) + shift(pp, b));
}

proof fn lemma_shift_shift(a: Path, b: Path, ds: Seq<DiffView>)
    ensures
        shift(a, shift(b, ds)) == shift(a + b, ds),
{
    assert forall|i: int| 0 <= i < ds.len() implies #[trigger] shift(a, shift(b, ds))[i] == shift(
        a + b,
        ds,
    )[i] by {
        match ds[i] {
            DiffView::MissingNode(p) => {
                assert(a + (b + p) =~= (a + b) + p);
            },
            DiffView::DifferentNodeType(p) => {
                assert(a + (b + p) =~= (a + b) + p);
            },
            DiffView::DifferentParameters(p) => {
                assert(a + (b + p) =~= (a + b) + p);
            },
        }
    }
    assert(shift(a, shift(b, ds)) =~= shift(a + b, ds));
}

/// The differences found below a path are those found from the root, moved below the path.
proof fn lemma_shift_node(b: NodeView, t: NodeView, pp: Path)
    ensures
        node_differences(b, t, pp) == shift(pp, node_differences(b, t, Seq::empty())),
    decreases b,
{
    let e = Seq::<Seq<char>>::empty();
    assert(pp + e =~= pp);
    match b {
        NodeView::Branch(bes) => match t {
            NodeView::Branch(tes) => {
                lemma_shift_entries(bes, tes, pp);
            },
            NodeView::Leaf(_) => {
                assert(shift(pp, seq![DiffView::DifferentNodeType(e)]) =~= seq![
                    DiffView::DifferentNodeType(pp),
                ]);
            },
        },
        NodeView::Leaf(_) => match t {
            NodeView::Branch(_) => {
                assert(shift(pp, seq![DiffView::DifferentNodeType(e)]) =~= seq![
                    DiffView::DifferentNodeType(pp),
                ]);
            },
            NodeView::Leaf(_) => {
                assert(shift(pp, seq![DiffView::DifferentParameters(e)]) =~= seq![
                    DiffView::DifferentParameters(pp),
                ]);
                assert(shift(pp, Seq::<DiffView>::empty()) =~= Seq::<DiffView>::empty());
            },
        },
    }
}

proof fn lemma_shift_entries(bes: Entries, tes: Entries, pp: Path)
    ensures
        entries_differences(bes, tes, pp) == shift(pp, entries_differences(bes, tes, Seq::empty())),
    decreases bes,
{
    let e = Seq::<Seq<char>>::empty();
    if bes.len() == 0 {
        assert(shift(pp, Seq::<DiffView>::empty()) =~= Seq::<DiffView>::empty());
    } else {
        let k = bes.last().0;
        let bn = bes.last().1;
        lemma_shift_entries(bes.drop_last(), tes, pp);
        let x = entries_differences(bes.drop_last(), tes, e);
        let last0 = entry_differences(bes.last(), tes, e);
        let last1 = entry_differences(bes.last(), tes, pp);
        assert(entries_differences(bes, tes, e) == x + last0);
        assert(entries_differences(bes, tes, pp) == entries_differences(bes.drop_last(), tes, pp)
            + last1);
        lemma_shift_concat(pp, x, last0);
        assert(e.push(k) =~= seq![k]);
        assert(pp.push(k) =~= pp + seq![k]);
        match lookup(tes, k) {
            Some(tn) => {
                lemma_shift_node(bn, tn, pp.push(k));
                lemma_shift_node(bn, tn, seq![k]);
                lemma_shift_shift(pp, seq![k], node_differences(bn, tn, e));
            },
            None => {
                assert(shift(pp, seq![DiffView::MissingNode(seq![k])]) =~= seq![
                    DiffView::MissingNode(pp.push(k)),
                ]);
            },
        }
    }
}

/// Repairing a list of differences one after another is repairing its first part, then the rest.
proof fn lemma_apply_concat(ts: Entries, bs: Entries, a: Seq<DiffView>, b: Seq<DiffView>, f: Seq<char>)
    ensures
        apply_differences(ts, bs, a + b, f) == match apply_differences(ts, bs, a, f) {
            Ok(t) => apply_differences(t, bs, b, f),
            Err(e) => Err(e),
        },
    decreases b.len(),
{
    if b.len() == 0 {
        assert(a + b =~= a);
    } else {
        lemma_apply_concat(ts, bs, a, b.drop_last(), f);
        assert((a + b).drop_last() =~= a + b.drop_last());
        assert((a + b).last() == b.last());
    }
}

/// Placing a node under a key makes the key find it.
proof fn lemma_put_same(es: Entries, k: Seq<char>, n: NodeView)
    ensures
        lookup(put(es, k, n), k) == Some(n),
        put(es, k, n).len() >= es.len(),
{
    lemma_first_index(es, k);
    let i = first_index(es, k);
    if i < es.len() {
        lemma_same_keys_first_index(es.update(i, (k, n)), es, k);
    } else {
        let e2 = es.push((k, n));
        lemma_first_index(e2, k);
        assert(e2[es.len() as int].0 == k);
        let f2 = first_index(e2, k);
        if f2 < es.len() {
            assert(e2[f2] == es[f2]);
        }
    }
}

/// Differences found at a key's branch, repaired from the root, repair that branch alone.
proof fn lemma_lift(
    ts: Entries,
    bs: Entries,
    k: Seq<char>,
    tc: Entries,
    bc: Entries,
    ds: Seq<DiffView>,
    f: Seq<char>,
)
    requires
        lookup(ts, k) == Some(NodeView::Branch(tc)),
        lookup(bs, k) == Some(NodeView::Branch(bc)),
        forall|i: int| 0 <= i < ds.len() ==> diff_path(#[trigger] ds[i]).len() > 0,
    ensures
        apply_differences(ts, bs, shift(seq![k], ds), f) == match apply_differences(tc, bc, ds, f) {
            Ok(t2) => Ok(put(ts, k, NodeView::Branch(t2))),
            Err(e) => Err(e),
        },
    decreases ds.len(),
{
    let i = first_index(ts, k);
    lemma_first_index(ts, k);
    lemma_first_index(bs, k);
    if ds.len() == 0 {
        assert(shift(seq![k], ds) =~= Seq::<DiffView>::empty());
        assert(put(ts, k, NodeView::Branch(tc)) =~= ts);
    } else {
        let init = ds.drop_last();
        assert forall|j: int| 0 <= j < init.len() implies diff_path(#[trigger] init[j]).len() > 0 by {
            assert(init[j] == ds[j]);
        }
        lemma_lift(ts, bs, k, tc, bc, init, f);
        assert(shift(seq![k], ds).drop_last() =~= shift(seq![k], init));
        assert(shift(seq![k], ds).last() == shift_diff(seq![k], ds.last()));
        assert(diff_path(ds[ds.len() - 1]).len() > 0);
        if let Ok(tc1) = apply_differences(tc, bc, init, f) {
            let t1 = put(ts, k, NodeView::Branch(tc1));
            assert(t1 == ts.update(i, (k, NodeView::Branch(tc1))));
            lemma_same_keys_first_index(t1, ts, k);
            let d = ds.last();
            let q = diff_path(d);
            let kq = seq![k] + q;
            assert(kq[0] == k);
            assert(kq.drop_first() =~= q);
            assert(node_at(bs, kq) == node_at(bc, q));
            match d {
                DiffView::MissingNode(_) => {
                    if let Some(bn) = node_at(bc, q) {
                        let n = blank(bn, f);
                        match insert_at(tc1, q, n) {
                            Some(nc) => {
                                assert(insert_at(t1, kq, n) == Some(
                                    t1.update(i, (k, NodeView::Branch(nc))),
                                ));
                                assert(t1.update(i, (k, NodeView::Branch(nc))) =~= put(
                                    ts,
                                    k,
                                    NodeView::Branch(nc),
                                ));
                            },
                            None => {
                                assert(insert_at(t1, kq, n) is None);
                            },
                        }
                    }
                },
                DiffView::DifferentNodeType(_) => {
                    if let Some(bn) = node_at(bc, q) {
                        let n = blank(bn, f);
                        match replace_at(tc1, q, n) {
                            Some(nc) => {
                                assert(replace_at(t1, kq, n) == Some(
                                    t1.update(i, (k, NodeView::Branch(nc))),
                                ));
                                assert(t1.update(i, (k, NodeView::Branch(nc))) =~= put(
                                    ts,
                                    k,
                                    NodeView::Branch(nc),
                                ));
                            },
                            None => {
                                assert(replace_at(t1, kq, n) is None);
                            },
                        }
                    }
                },
                DiffView::DifferentParameters(_) => {},
            }
        }
    }
}

/// The target node has the shape of the base node: a leaf where the base has a leaf, and a
/// branch holding a conforming child for each base key where the base has a branch.
pub open spec fn conforms(b: NodeView, t: NodeView) -> bool
    decreases b,
{
    match b {
        NodeView::Leaf(_) => t is Leaf,
        NodeView::Branch(bes) => match t {
            NodeView::Branch(tes) => conforms_entries(bes, tes),
            NodeView::Leaf(_) => false,
        },
    }
}

/// Each base entry's key finds a conforming child among the target entries.
pub open spec fn conforms_entries(bes: Entries, tes: Entries) -> bool
    decreases bes,
{
    if bes.len() == 0 {
        true
    } else {
        conforms_entries(bes.drop_last(), tes) && match lookup(tes, bes.last().0) {
            Some(tn) => conforms(bes.last().1, tn),
            None => false,
        }
    }
}

proof fn lemma_contains_concat(a: Seq<DiffView>, b: Seq<DiffView>, d: DiffView)
    requires
        (a + b).contains(d),
    ensures
        a.contains(d) || b.contains(d),
{
    let i = choose|i: int| 0 <= i < (a + b).len() && (a + b)[i] == d;
    if i < a.len() {
        assert(a[i] == d);
    } else {
        assert(b[i - a.len()] == d);
    }
}

/// A conforming target shows no missing node and no node of the wrong kind.
proof fn lemma_conforming_node_no_repairs(b: NodeView, t: NodeView, pp: Path)
    requires
        conforms(b, t),
    ensures
        forall|d: DiffView| #[trigger] node_differences(b, t, pp).contains(d) ==> !mutating(d),
    decreases b,
{
    match b {
        NodeView::Branch(bes) => {
            let tes = t->Branch_0;
            lemma_conforming_entries_no_repairs(bes, tes, pp);
            assert(node_differences(b, t, pp) == entries_differences(bes, tes, pp));
        },
        NodeView::Leaf(_) => {
            assert forall|d: DiffView| #[trigger] node_differences(b, t, pp).contains(d) implies !mutating(d) by {
                let nd = node_differences(b, t, pp);
                if nd.len() > 0 {
                    assert(nd[0] == d);
                }
            }
        },
    }
}

proof fn lemma_conforming_entries_no_repairs(bes: Entries, tes: Entries, pp: Path)
    requires
        conforms_entries(bes, tes),
    ensures
        forall|d: DiffView| #[trigger] entries_differences(bes, tes, pp).contains(d) ==> !mutating(d),
    decreases bes,
{
    if bes.len() > 0 {
        lemma_conforming_entries_no_repairs(bes.drop_last(), tes, pp);
        let tn = lookup(tes, bes.last().0)->Some_0;
        lemma_conforming_node_no_repairs(bes.last().1, tn, pp.push(bes.last().0));
        assert forall|d: DiffView| #[trigger] entries_differences(bes, tes, pp).contains(d) implies !mutating(d) by {
            let x = entries_differences(bes.drop_last(), tes, pp);
            let y = entry_differences(bes.last(), tes, pp);
            assert(entries_differences(bes, tes, pp) == x + y);
            lemma_contains_concat(x, y, d);
        }
    }
}

/// Conformance rests only on what the base keys find.
proof fn lemma_conforms_lookups_agree(bes: Entries, t1: Entries, t2: Entries)
    requires
        conforms_entries(bes, t1),
        forall|j: int| 0 <= j < bes.len() ==> #[trigger] lookup(t2, bes[j].0) == lookup(t1, bes[j].0),
    ensures
        conforms_entries(bes, t2),
    decreases bes.len(),
{
    if bes.len() > 0 {
        let init = bes.drop_last();
        assert forall|j: int| 0 <= j < init.len() implies #[trigger] lookup(t2, init[j].0) == lookup(
            t1,
            init[j].0,
        ) by {
            assert(init[j] == bes[j]);
        }
        lemma_conforms_lookups_agree(init, t1, t2);
        assert(lookup(t2, bes[bes.len() - 1].0) == lookup(t1, bes[bes.len() - 1].0));
    }
}

/// A blanked copy of a node with unique keys has the node's shape.
proof fn lemma_blank_conforms(b: NodeView, f: Seq<char>)
    requires
        wf_node(b),
    ensures
        conforms(b, blank(b, f)),
    decreases b,
{
    if let NodeView::Branch(bes) = b {
        lemma_blank_entries_conform(bes, f);
    }
}

proof fn lemma_blank_entries_conform(bes: Entries, f: Seq<char>)
    requires
        wf_entries(bes),
    ensures
        conforms_entries(bes, blank_entries(bes, f)),
    decreases bes,
{
    if bes.len() > 0 {
        let init = bes.drop_last();
        let (k, bn) = bes.last();
        let bi = blank_entries(init, f);
        lemma_blank_entries_conform(init, f);
        lemma_blank_entries(init, f);
        lemma_same_keys_first_index(bi, init, k);
        assert(blank_entries(bes, f) == bi.push((k, blank(bn, f))));
        assert(put(bi, k, blank(bn, f)) == bi.push((k, blank(bn, f))));
        lemma_put_same(bi, k, blank(bn, f));
        lemma_blank_conforms(bn, f);
        lemma_wf_entries(bes);
        assert forall|j: int| 0 <= j < init.len() implies #[trigger] lookup(
            blank_entries(bes, f),
            init[j].0,
        ) == lookup(bi, init[j].0) by {
            assert(init[j] == bes[j]);
            lemma_put_lookup(bi, k, blank(bn, f), init[j].0);
        }
        lemma_conforms_lookups_agree(init, bi, blank_entries(bes, f));
    }
}

/// Every difference found below `pp` lies strictly beneath it.
proof fn lemma_entries_paths_below(bes: Entries, tes: Entries, pp: Path)
    ensures
        forall|d: DiffView| #[trigger]
            entries_differences(bes, tes, pp).contains(d) ==> diff_path(d).len() > pp.len(),
{
    assert forall|d: DiffView| #[trigger]
        entries_differences(bes, tes, pp).contains(d) implies diff_path(d).len() > pp.len() by {
        lemma_entries_difference_source(bes, tes, pp, d);
        let j = choose|j: int|
            0 <= j < bes.len() && #[trigger] entry_differences(bes[j], tes, pp).contains(d);
        let k = bes[j].0;
        match lookup(tes, k) {
            Some(tn) => {
                lemma_difference_paths(bes[j].1, tn, pp.push(k));
            },
            None => {
                assert(d == DiffView::MissingNode(pp.push(k)));
            },
        }
    }
}

/// Repairing the differences of one base entry leaves a conforming child under its key and
/// every other key as it was.
proof fn lemma_repair_entry(
    bs: Entries,
    k: Seq<char>,
    bn: NodeView,
    ts: Entries,
    t1: Entries,
    f: Seq<char>,
)
    requires
        wf_node(bn),
        lookup(bs, k) == Some(bn),
        lookup(t1, k) == lookup(ts, k),
        (bn is Branch && lookup(ts, k) is Some && lookup(ts, k)->Some_0 is Branch) ==> (
        apply_differences(
            lookup(ts, k)->Some_0->Branch_0,
            bn->Branch_0,
            entries_differences(bn->Branch_0, lookup(ts, k)->Some_0->Branch_0, Seq::empty()),
            f,
        ) matches Ok(tc2) && conforms_entries(bn->Branch_0, tc2)),
    ensures
        apply_differences(t1, bs, entry_differences((k, bn), ts, Seq::empty()), f) matches Ok(t2)
            && (lookup(t2, k) matches Some(x) && conforms(bn, x)) && forall|k2: Seq<char>|
            k2 != k ==> #[trigger] lookup(t2, k2) == lookup(t1, k2),
{
    let e = Seq::<Seq<char>>::empty();
    let kk = e.push(k);
    assert(kk =~= seq![k]);
    assert(kk.len() == 1 && kk[0] == k);
    assert(node_at(bs, kk) == Some(bn));
    let last = entry_differences((k, bn), ts, e);
    lemma_first_index(t1, k);
    match lookup(ts, k) {
        None => {
            let n = blank(bn, f);
            let t2 = put(t1, k, n);
            assert(last == seq![DiffView::MissingNode(kk)]);
            assert(insert_at(t1, kk, n) == Some(t2));
            assert(last.drop_last() =~= Seq::<DiffView>::empty());
            assert(apply_differences(t1, bs, last.drop_last(), f) == Ok::<Entries, TrustlateError>(t1));
            assert(last.last() == DiffView::MissingNode(kk));
            assert(apply_difference(t1, bs, DiffView::MissingNode(kk), f) == Ok::<Entries, TrustlateError>(t2));
            assert(apply_differences(t1, bs, last, f) == Ok::<Entries, TrustlateError>(t2));
            lemma_put_same(t1, k, n);
            lemma_blank_conforms(bn, f);
            assert forall|k2: Seq<char>| k2 != k implies #[trigger] lookup(t2, k2) == lookup(t1, k2) by {
                lemma_put_lookup(t1, k, n, k2);
            }
        },
        Some(tn) => {
            assert(last == node_differences(bn, tn, kk));
            if (bn is Leaf) != (tn is Leaf) {
                let n = blank(bn, f);
                let t2 = put(t1, k, n);
                assert(last == seq![DiffView::DifferentNodeType(kk)]);
                assert(replace_at(t1, kk, n) == Some(t2));
                assert(last.drop_last() =~= Seq::<DiffView>::empty());
                assert(apply_differences(t1, bs, last, f) == Ok::<Entries, TrustlateError>(t2));
                lemma_put_same(t1, k, n);
                lemma_blank_conforms(bn, f);
                assert forall|k2: Seq<char>| k2 != k implies #[trigger] lookup(t2, k2) == lookup(
                    t1,
                    k2,
                ) by {
                    lemma_put_lookup(t1, k, n, k2);
                }
            } else if bn is Leaf {
                if last.len() == 0 {
                    assert(apply_differences(t1, bs, last, f) == Ok::<Entries, TrustlateError>(t1));
                } else {
                    assert(last == seq![DiffView::DifferentParameters(kk)]);
                    assert(last.drop_last() =~= Seq::<DiffView>::empty());
                    assert(apply_differences(t1, bs, last.drop_last(), f) == Ok::<Entries, TrustlateError>(t1));
                    assert(last.last() == DiffView::DifferentParameters(kk));
                    assert(apply_differences(t1, bs, last, f) == Ok::<Entries, TrustlateError>(t1));
                }
            } else {
                let bc = bn->Branch_0;
                let tc = tn->Branch_0;
                let dc = entries_differences(bc, tc, e);
                lemma_shift_entries(bc, tc, seq![k]);
                assert(last == entries_differences(bc, tc, kk));
                lemma_entries_paths_below(bc, tc, e);
                assert forall|i: int| 0 <= i < dc.len() implies diff_path(#[trigger] dc[i]).len() > 0 by {
                    assert(dc.contains(dc[i]));
                }
                lemma_lift(t1, bs, k, tc, bc, dc, f);
                let tc2 = apply_differences(tc, bc, dc, f)->Ok_0;
                let t2 = put(t1, k, NodeView::Branch(tc2));
                assert(apply_differences(t1, bs, last, f) == Ok::<Entries, TrustlateError>(t2));
                lemma_put_same(t1, k, NodeView::Branch(tc2));
                assert forall|k2: Seq<char>| k2 != k implies #[trigger] lookup(t2, k2) == lookup(
                    t1,
                    k2,
                ) by {
                    lemma_put_lookup(t1, k, NodeView::Branch(tc2), k2);
                }
            }
        },
    }
}

/// Repairing the differences of the first `n` base entries succeeds, leaves a conforming
/// child under each of their keys, and changes nothing under any other key.
proof fn lemma_repair(bs: Entries, n: int, ts: Entries, f: Seq<char>)
    requires
        wf_entries(bs),
        0 <= n <= bs.len(),
    ensures
        apply_differences(ts, bs, entries_differences(bs.take(n), ts, Seq::empty()), f) matches Ok(
            t2,
        ) && conforms_entries(bs.take(n), t2) && forall|k: Seq<char>| #[trigger]
            lookup(t2, k) != lookup(ts, k) ==> exists|j: int| 0 <= j < n && bs[j].0 == k,
    decreases bs, n,
{
    let e = Seq::<Seq<char>>::empty();
    lemma_wf_entries(bs);
    if n == 0 {
        assert(bs.take(0) =~= Seq::<(Seq<char>, NodeView)>::empty());
    } else {
        lemma_repair(bs, n - 1, ts, f);
        let prev = bs.take(n - 1);
        let cur = bs.take(n);
        assert(cur.drop_last() =~= prev);
        assert(cur.last() == bs[n - 1]);
        let dprev = entries_differences(prev, ts, e);
        let t1 = apply_differences(ts, bs, dprev, f)->Ok_0;
        let k = bs[n - 1].0;
        let bn = bs[n - 1].1;
        let last = entry_differences(bs[n - 1], ts, e);
        assert(entries_differences(cur, ts, e) == dprev + last);
        lemma_apply_concat(ts, bs, dprev, last, f);
        if lookup(t1, k) != lookup(ts, k) {
            let j = choose|j: int| 0 <= j < n - 1 && bs[j].0 == k;
            assert(bs[j].0 != bs[n - 1].0);
        }
        lemma_unique_lookup(bs, n - 1);
        assert(wf_node(bn));
        if bn is Branch {
            if let Some(NodeView::Branch(tc)) = lookup(ts, k) {
                let bc = bn->Branch_0;
                assert(decreases_to!(bs => bs[n - 1]));
                lemma_repair(bc, bc.len() as int, tc, f);
                assert(bc.take(bc.len() as int) =~= bc);
            }
        }
        assert(bs[n - 1] == (k, bn));
        lemma_repair_entry(bs, k, bn, ts, t1, f);
        let t2 = apply_differences(t1, bs, last, f)->Ok_0;
        assert forall|j: int| 0 <= j < prev.len() implies #[trigger] lookup(t2, prev[j].0) == lookup(
            t1,
            prev[j].0,
        ) by {
            assert(prev[j] == bs[j]);
            assert(bs[j].0 != bs[n - 1].0);
        }
        lemma_conforms_lookups_agree(prev, t1, t2);
        assert forall|k2: Seq<char>| #[trigger] lookup(t2, k2) != lookup(ts, k2) implies exists|j: int|
            0 <= j < n && bs[j].0 == k2 by {
            if k2 != k {
                assert(lookup(t2, k2) == lookup(t1, k2));
                assert(lookup(t1, k2) != lookup(ts, k2));
            } else {
                assert(bs[n - 1].0 == k2);
            }
        }
    }
}

/// Idempotence of harmonization: with unique base keys, repairing a target for the
/// differences the comparison found always succeeds, and comparing the repaired target
/// again finds no missing node and no node of the wrong kind.
pub proof fn lemma_harmonize_idempotent(base: TranslationsTree, target: TranslationsTree, filling: Seq<char>)
    requires
        wf_entries(base@),
    ensures
        apply_differences(
            target@,
            base@,
            entries_differences(base@, target@, Seq::empty()),
            filling,
        ) matches Ok(t2) && forall|d: DiffView| #[trigger]
            entries_differences(base@, t2, Seq::empty()).contains(d) ==> !mutating(d),
{
    lemma_repair(base@, base@.len() as int, target@, filling);
    assert(base@.take(base@.len() as int) =~= base@);
    let t2 = apply_differences(
        target@,
        base@,
        entries_differences(base@, target@, Seq::empty()),
        filling,
    )->Ok_0;
    lemma_conforming_entries_no_repairs(base@, t2, Seq::empty());
}

} // verus!
