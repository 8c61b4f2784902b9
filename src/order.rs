use vstd::prelude::*;

use crate::tree::{entries_view, lemma_entries_view, Entries, TranslationTreeNode};

verus! {

/// Lexical order of keys, character by character; a proper prefix comes first.
pub open spec fn key_less(a: Seq<char>, b: Seq<char>) -> bool
    decreases a.len(),
{
    if a.len() == 0 {
        b.len() > 0
    } else if b.len() == 0 {
        false
    } else if a[0] != b[0] {
        a[0] < b[0]
    } else {
        key_less(a.drop_first(), b.drop_first())
    }
}

/// Whether key `a` comes before key `b` in lexical order.
pub fn key_before(a: &str, b: &str) -> (r: bool)
    ensures
        r == key_less(a@, b@),
{
    let la = a.unicode_len();
    let lb = b.unicode_len();
    let mut i: usize = 0;
    assert(a@.skip(0) =~= a@ && b@.skip(0) =~= b@);
    while i < la && i < lb
        invariant
            i <= la,
            i <= lb,
            la == a@.len(),
            lb == b@.len(),
            key_less(a@, b@) == key_less(a@.skip(i as int), b@.skip(i as int)),
        decreases la - i,
    {
        let ca = a.get_char(i);
        let cb = b.get_char(i);
        proof {
            assert(a@.skip(i as int)[0] == ca);
            assert(b@.skip(i as int)[0] == cb);
            assert(a@.skip(i as int).drop_first() =~= a@.skip(i + 1));
            assert(b@.skip(i as int).drop_first() =~= b@.skip(i + 1));
        }
        if ca != cb {
            return ca < cb;
        }
        i += 1;
    }
    proof {
        if i == la {
            assert(a@.skip(i as int).len() == 0);
        } else {
            assert(b@.skip(i as int).len() == 0);
        }
    }
    i == la && i < lb
}

/// The positions `ord`, kept in key order, with position `j` placed before the first
/// position whose key comes after its own.
pub open spec fn insert_by_key(es: Entries, ord: Seq<int>, j: int) -> Seq<int>
    decreases ord.len(),
{
    if ord.len() == 0 {
        seq![j]
    } else if key_less(es[j].0, es[ord[0]].0) {
        seq![j] + ord
    } else {
        seq![ord[0]] + insert_by_key(es, ord.drop_first(), j)
    }
}

/// The first `n` positions of the entries, in key order.
pub open spec fn sort_order_upto(es: Entries, n: int) -> Seq<int>
    decreases n,
{
    if n <= 0 {
        Seq::empty()
    } else {
        insert_by_key(es, sort_order_upto(es, n - 1), n - 1)
    }
}

/// The positions of the entries in lexical order of their keys; entries with equal keys keep
/// their relative order.
pub open spec fn sort_order(es: Entries) -> Seq<int> {
    sort_order_upto(es, es.len() as int)
}

/// Positions as integers.
pub open spec fn positions(v: Seq<usize>) -> Seq<int> {
    v.map_values(|x: usize| x as int)
}

proof fn lemma_insert_by_key(es: Entries, ord: Seq<int>, j: int, p: int)
    requires
        0 <= p <= ord.len(),
        forall|m: int| 0 <= m < p ==> !key_less(es[j].0, #[trigger] es[ord[m]].0),
        p < ord.len() ==> key_less(es[j].0, es[ord[p]].0),
    ensures
        insert_by_key(es, ord, j) == ord.take(p) + seq![j] + ord.skip(p),
    decreases ord.len(),
{
    if ord.len() == 0 {
        assert(ord.take(p) + seq![j] + ord.skip(p) =~= seq![j]);
    } else if p == 0 {
        assert(ord.take(p) + seq![j] + ord.skip(p) =~= seq![j] + ord);
    } else {
        let rest = ord.drop_first();
        assert forall|m: int| 0 <= m < p - 1 implies !key_less(es[j].0, #[trigger] es[rest[m]].0) by {
            assert(rest[m] == ord[m + 1]);
        }
        if p - 1 < rest.len() {
            assert(rest[p - 1] == ord[p]);
        }
        assert(!key_less(es[j].0, es[ord[0]].0));
        lemma_insert_by_key(es, rest, j, p - 1);
        assert(seq![ord[0]] + (rest.take(p - 1) + seq![j] + rest.skip(p - 1)) =~= ord.take(p)
            + seq![j] + ord.skip(p));
    }
}

/// The positions of the children in lexical order of their keys.
pub fn sorted_positions(es: &Vec<(String, TranslationTreeNode)>) -> (r: Vec<usize>)
    ensures
        positions(r@) == sort_order(entries_view(es@)),
        forall|m: int| 0 <= m < r.len() ==> #[trigger] r@[m] < es.len(),
{
    let ghost ev = entries_view(es@);
    proof {
        lemma_entries_view(es@);
    }
    let mut ord: Vec<usize> = Vec::new();
    let mut j: usize = 0;
    while j < es.len()
        invariant
            j <= es.len(),
            ev == entries_view(es@),
            ev.len() == es.len(),
            forall|m: int| 0 <= m < es.len() ==> #[trigger] ev[m].0 == es@[m].0@,
            positions(ord@) == sort_order_upto(ev, j as int),
            forall|m: int| 0 <= m < ord.len() ==> #[trigger] ord@[m] < j,
        decreases es.len() - j,
    {
        let mut p: usize = 0;
        while p < ord.len() && !key_before(es[j].0.as_str(), es[ord[p]].0.as_str())
            invariant
                p <= ord.len(),
                j < es.len(),
                ev.len() == es.len(),
                forall|m: int| 0 <= m < es.len() ==> #[trigger] ev[m].0 == es@[m].0@,
                forall|m: int| 0 <= m < ord.len() ==> #[trigger] ord@[m] < j,
                forall|m: int|
                    0 <= m < p ==> !key_less(ev[j as int].0, #[trigger] ev[positions(ord@)[m]].0),
            decreases ord.len() - p,
        {
            assert(positions(ord@)[p as int] == ord@[p as int]);
            p += 1;
        }
        proof {
            if p < ord.len() {
                assert(positions(ord@)[p as int] == ord@[p as int]);
            }
            lemma_insert_by_key(ev, positions(ord@), j as int, p as int);
        }
        let ghost before = ord@;
        ord.insert(p, j);
        proof {
            assert(positions(ord@) =~= positions(before).take(p as int) + seq![j as int]
                + positions(before).skip(p as int));
            assert forall|m: int| 0 <= m < ord.len() implies #[trigger] ord@[m] < j + 1 by {
                if m < p {
                    assert(ord@[m] == before[m]);
                } else if m > p {
                    assert(ord@[m] == before[m - 1]);
                }
            }
        }
        j += 1;
    }
    ord
}

/// No two entries share a key.
pub open spec fn keys_unique(es: Entries) -> bool {
    forall|i: int, j: int| 0 <= i < j < es.len() ==> es[i].0 != es[j].0
}

/// The entries at positions `ord` have strictly increasing keys.
pub open spec fn strictly_sorted(es: Entries, ord: Seq<int>) -> bool {
    forall|m1: int, m2: int|
        0 <= m1 < m2 < ord.len() ==> key_less(#[trigger] es[ord[m1]].0, #[trigger] es[ord[m2]].0)
}

/// The entries at positions `ord`, in that order.
pub open spec fn picked(es: Entries, ord: Seq<int>) -> Entries {
    ord.map_values(|j: int| es[j])
}

pub proof fn lemma_key_less_irreflexive(a: Seq<char>)
    ensures
        !key_less(a, a),
    decreases a.len(),
{
    if a.len() > 0 {
        lemma_key_less_irreflexive(a.drop_first());
    }
}

pub proof fn lemma_key_less_total(a: Seq<char>, b: Seq<char>)
    ensures
        key_less(a, b) ==> !key_less(b, a),
        a != b ==> key_less(a, b) || key_less(b, a),
    decreases a.len(),
{
    if a.len() == 0 && b.len() == 0 {
        assert(a =~= b);
    } else if a.len() > 0 && b.len() > 0 && a[0] == b[0] {
        lemma_key_less_total(a.drop_first(), b.drop_first());
        if a.drop_first() == b.drop_first() {
            assert(a =~= seq![a[0]] + a.drop_first());
            assert(b =~= seq![b[0]] + b.drop_first());
        }
    }
}

pub proof fn lemma_key_less_transitive(a: Seq<char>, b: Seq<char>, c: Seq<char>)
    requires
        key_less(a, b),
        key_less(b, c),
    ensures
        key_less(a, c),
    decreases a.len(),
{
    if a.len() > 0 && a[0] == b[0] && b[0] == c[0] {
        lemma_key_less_transitive(a.drop_first(), b.drop_first(), c.drop_first());
    }
}

proof fn lemma_insert_sorted(es: Entries, ord: Seq<int>, j: int)
    requires
        keys_unique(es),
        0 <= j < es.len(),
        strictly_sorted(es, ord),
        forall|m: int| 0 <= m < ord.len() ==> 0 <= #[trigger] ord[m] < es.len() && ord[m] != j,
    ensures
        insert_by_key(es, ord, j).len() == ord.len() + 1,
        strictly_sorted(es, insert_by_key(es, ord, j)),
        forall|m: int|
            0 <= m < insert_by_key(es, ord, j).len() ==> (#[trigger] insert_by_key(es, ord, j)[m]
                == j || ord.contains(insert_by_key(es, ord, j)[m])),
        forall|m: int|
            0 <= m < insert_by_key(es, ord, j).len() ==> 0 <= #[trigger] insert_by_key(
                es,
                ord,
                j,
            )[m] < es.len(),
        insert_by_key(es, ord, j).contains(j),
        forall|x: int| ord.contains(x) ==> #[trigger] insert_by_key(es, ord, j).contains(x),
    decreases ord.len(),
{
    let r = insert_by_key(es, ord, j);
    if ord.len() == 0 {
        assert(r[0] == j);
    } else if key_less(es[j].0, es[ord[0]].0) {
        assert(r =~= seq![j] + ord);
        assert forall|m1: int, m2: int| 0 <= m1 < m2 < r.len() implies key_less(
            #[trigger] es[r[m1]].0,
            #[trigger] es[r[m2]].0,
        ) by {
            if m1 == 0 {
                if m2 > 1 {
                    assert(key_less(es[ord[0]].0, es[ord[m2 - 1]].0));
                    lemma_key_less_transitive(es[j].0, es[ord[0]].0, es[ord[m2 - 1]].0);
                }
            } else {
                assert(key_less(es[ord[m1 - 1]].0, es[ord[m2 - 1]].0));
            }
        }
        assert(r[0] == j);
        assert forall|x: int| ord.contains(x) implies #[trigger] r.contains(x) by {
            let t = choose|t: int| 0 <= t < ord.len() && ord[t] == x;
            assert(r[t + 1] == x);
        }
        assert forall|m: int| 0 <= m < r.len() implies (#[trigger] r[m] == j || ord.contains(r[m])) by {
            if m > 0 {
                assert(r[m] == ord[m - 1]);
            }
        }
    } else {
        let rest = ord.drop_first();
        assert forall|m1: int, m2: int| 0 <= m1 < m2 < rest.len() implies key_less(
            #[trigger] es[rest[m1]].0,
            #[trigger] es[rest[m2]].0,
        ) by {
            assert(key_less(es[ord[m1 + 1]].0, es[ord[m2 + 1]].0));
        }
        assert forall|m: int| 0 <= m < rest.len() implies 0 <= #[trigger] rest[m] < es.len() && rest[m]
            != j by {
            assert(rest[m] == ord[m + 1]);
        }
        lemma_insert_sorted(es, rest, j);
        let ir = insert_by_key(es, rest, j);
        assert(r =~= seq![ord[0]] + ir);
        assert(es[ord[0]].0 != es[j].0);
        lemma_key_less_total(es[j].0, es[ord[0]].0);
        assert forall|m1: int, m2: int| 0 <= m1 < m2 < r.len() implies key_less(
            #[trigger] es[r[m1]].0,
            #[trigger] es[r[m2]].0,
        ) by {
            if m1 == 0 {
                assert(r[m2] == ir[m2 - 1]);
                if ir[m2 - 1] != j {
                    assert(rest.contains(ir[m2 - 1]));
                    let t = choose|t: int| 0 <= t < rest.len() && rest[t] == ir[m2 - 1];
                    assert(rest[t] == ord[t + 1]);
                    assert(key_less(es[ord[0]].0, es[ord[t + 1]].0));
                }
            } else {
                assert(r[m1] == ir[m1 - 1]);
                assert(r[m2] == ir[m2 - 1]);
                assert(key_less(es[ir[m1 - 1]].0, es[ir[m2 - 1]].0));
            }
        }
        assert forall|m: int| 0 <= m < r.len() implies (#[trigger] r[m] == j || ord.contains(r[m])) by {
            if m == 0 {
                assert(ord[0] == r[0]);
            } else {
                assert(r[m] == ir[m - 1]);
                if ir[m - 1] != j {
                    assert(rest.contains(ir[m - 1]));
                    let t = choose|t: int| 0 <= t < rest.len() && rest[t] == ir[m - 1];
                    assert(ord[t + 1] == r[m]);
                }
            }
        }
        assert forall|m: int| 0 <= m < r.len() implies 0 <= #[trigger] r[m] < es.len() by {
            if m > 0 {
                assert(r[m] == ir[m - 1]);
            }
        }
        assert(ir.contains(j));
        let tj = choose|t: int| 0 <= t < ir.len() && ir[t] == j;
        assert(r[tj + 1] == j);
        assert forall|x: int| ord.contains(x) implies #[trigger] r.contains(x) by {
            let t = choose|t: int| 0 <= t < ord.len() && ord[t] == x;
            if t == 0 {
                assert(r[0] == x);
            } else {
                assert(rest[t - 1] == x);
                assert(rest.contains(x));
                assert(ir.contains(x));
                let u = choose|u: int| 0 <= u < ir.len() && ir[u] == x;
                assert(r[u + 1] == x);
            }
        }
    }
}

/// With unique keys, the key order holds every position once, by strictly increasing keys.
pub proof fn lemma_sort_order(es: Entries, n: int)
    requires
        keys_unique(es),
        0 <= n <= es.len(),
    ensures
        strictly_sorted(es, sort_order_upto(es, n)),
        forall|m: int|
            0 <= m < sort_order_upto(es, n).len() ==> 0 <= #[trigger] sort_order_upto(es, n)[m] < n,
        forall|i: int| 0 <= i < n ==> #[trigger] sort_order_upto(es, n).contains(i),
    decreases n,
{
    if n > 0 {
        let ord = sort_order_upto(es, n - 1);
        lemma_sort_order(es, n - 1);
        lemma_insert_sorted(es, ord, n - 1);
        let r = sort_order_upto(es, n);
        assert(r == insert_by_key(es, ord, n - 1));
        assert forall|m: int| 0 <= m < r.len() implies 0 <= #[trigger] r[m] < n by {
            if r[m] != n - 1 {
                let t = choose|t: int| 0 <= t < ord.len() && ord[t] == r[m];
            }
        }
        assert forall|i: int| 0 <= i < n implies #[trigger] r.contains(i) by {
            if i < n - 1 {
                assert(ord.contains(i));
            }
        }
    }
}

/// Two lists of entries with strictly increasing keys that hold the same entries are equal.
proof fn lemma_sorted_unique(x: Entries, y: Entries)
    requires
        forall|m1: int, m2: int| 0 <= m1 < m2 < x.len() ==> key_less(#[trigger] x[m1].0, #[trigger] x[m2].0),
        forall|m1: int, m2: int| 0 <= m1 < m2 < y.len() ==> key_less(#[trigger] y[m1].0, #[trigger] y[m2].0),
        forall|i: int| 0 <= i < x.len() ==> y.contains(#[trigger] x[i]),
        forall|i: int| 0 <= i < y.len() ==> x.contains(#[trigger] y[i]),
    ensures
        x == y,
    decreases x.len(),
{
    if x.len() == 0 {
        if y.len() > 0 {
            assert(x.contains(y[0]));
        }
        assert(x =~= y);
    } else {
        assert(y.contains(x[0]));
        let p = choose|p: int| 0 <= p < y.len() && y[p] == x[0];
        assert(x.contains(y[0]));
        let q = choose|q: int| 0 <= q < x.len() && x[q] == y[0];
        if p > 0 {
            assert(key_less(y[0].0, y[p].0));
            if q > 0 {
                assert(key_less(x[0].0, x[q].0));
                lemma_key_less_total(x[0].0, y[0].0);
            } else {
                lemma_key_less_irreflexive(y[0].0);
            }
        }
        let x1 = x.drop_first();
        let y1 = y.drop_first();
        assert forall|i: int| 0 <= i < x1.len() implies y1.contains(#[trigger] x1[i]) by {
            assert(x1[i] == x[i + 1]);
            assert(y.contains(x[i + 1]));
            let t = choose|t: int| 0 <= t < y.len() && y[t] == x[i + 1];
            assert(key_less(x[0].0, x[i + 1].0));
            lemma_key_less_irreflexive(x[0].0);
            assert(t != 0);
            assert(y1[t - 1] == x1[i]);
        }
        assert forall|i: int| 0 <= i < y1.len() implies x1.contains(#[trigger] y1[i]) by {
            assert(y1[i] == y[i + 1]);
            assert(x.contains(y[i + 1]));
            let t = choose|t: int| 0 <= t < x.len() && x[t] == y[i + 1];
            assert(key_less(y[0].0, y[i + 1].0));
            lemma_key_less_irreflexive(y[0].0);
            assert(t != 0);
            assert(x1[t - 1] == y1[i]);
        }
        lemma_sorted_unique(x1, y1);
        assert(x =~= seq![x[0]] + x1);
        assert(y =~= seq![y[0]] + y1);
    }
}

/// Entries with unique keys that hold the same entries, in any order, are picked in the same
/// sequence by the key order.
pub proof fn lemma_key_order_canonical(a: Entries, b: Entries)
    requires
        keys_unique(a),
        keys_unique(b),
        forall|i: int| 0 <= i < a.len() ==> b.contains(#[trigger] a[i]),
        forall|i: int| 0 <= i < b.len() ==> a.contains(#[trigger] b[i]),
    ensures
        picked(a, sort_order(a)) == picked(b, sort_order(b)),
        forall|m: int| 0 <= m < sort_order(a).len() ==> 0 <= #[trigger] sort_order(a)[m] < a.len(),
        forall|m: int| 0 <= m < sort_order(b).len() ==> 0 <= #[trigger] sort_order(b)[m] < b.len(),
{
    let oa = sort_order(a);
    let ob = sort_order(b);
    lemma_sort_order(a, a.len() as int);
    lemma_sort_order(b, b.len() as int);
    let x = picked(a, oa);
    let y = picked(b, ob);
    assert forall|m1: int, m2: int| 0 <= m1 < m2 < x.len() implies key_less(#[trigger] x[m1].0, #[trigger] x[m2].0) by {
        assert(key_less(a[oa[m1]].0, a[oa[m2]].0));
    }
    assert forall|m1: int, m2: int| 0 <= m1 < m2 < y.len() implies key_less(#[trigger] y[m1].0, #[trigger] y[m2].0) by {
        assert(key_less(b[ob[m1]].0, b[ob[m2]].0));
    }
    assert forall|i: int| 0 <= i < x.len() implies y.contains(#[trigger] x[i]) by {
        assert(b.contains(a[oa[i]]));
        let t = choose|t: int| 0 <= t < b.len() && b[t] == a[oa[i]];
        assert(ob.contains(t));
        let s = choose|s: int| 0 <= s < ob.len() && ob[s] == t;
        assert(y[s] == x[i]);
    }
    assert forall|i: int| 0 <= i < y.len() implies x.contains(#[trigger] y[i]) by {
        assert(a.contains(b[ob[i]]));
        let t = choose|t: int| 0 <= t < a.len() && a[t] == b[ob[i]];
        assert(oa.contains(t));
        let s = choose|s: int| 0 <= s < oa.len() && oa[s] == t;
        assert(x[s] == y[i]);
    }
    lemma_sorted_unique(x, y);
}

} // verus!
