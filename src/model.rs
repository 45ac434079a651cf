//! The mathematical picture of a URL tree: a map from each node's path of
//! segments to what the node holds.

use vstd::prelude::*;

verus! {

/// A path of URL segments from the root.
pub type SegPath = Seq<Seq<char>>;

/// No key appears twice.
pub open spec fn keys_distinct<V>(s: Seq<(SegPath, V)>) -> bool {
    forall|i: int, j: int| 0 <= i < s.len() && 0 <= j < s.len() && i != j ==> s[i].0 != s[j].0
}

/// The map that a sequence of distinct keyed entries stands for.
pub open spec fn keyed<V>(s: Seq<(SegPath, V)>) -> Map<SegPath, V> {
    Map::new(
        |p: SegPath| exists|i: int| 0 <= i < s.len() && s[i].0 == p,
        |p: SegPath| s[choose|i: int| 0 <= i < s.len() && s[i].0 == p].1,
    )
}

/// Every path of the tree is non-empty and all of its non-empty proper
/// prefixes are paths of the tree too.
pub open spec fn prefix_closed<V>(m: Map<SegPath, V>) -> bool {
    &&& !m.dom().contains(Seq::empty())
    &&& forall|p: SegPath, k: int|
        m.dom().contains(p) && 0 < k < p.len() ==> #[trigger] m.dom().contains(#[trigger] p.take(k))
}

/// `q` is one of the non-empty prefixes of `p`, `p` itself included.
pub open spec fn is_prefix_of(q: SegPath, p: SegPath) -> bool {
    0 < q.len() <= p.len() && q == p.take(q.len() as int)
}

pub proof fn lemma_keyed_at<V>(s: Seq<(SegPath, V)>, i: int)
    requires
        keys_distinct(s),
        0 <= i < s.len(),
    ensures
        keyed(s).dom().contains(s[i].0),
        keyed(s)[s[i].0] == s[i].1,
{
    let p = s[i].0;
    assert(exists|j: int| 0 <= j < s.len() && s[j].0 == p);
    let j = choose|j: int| 0 <= j < s.len() && s[j].0 == p;
    assert(j == i);
}

pub proof fn lemma_keyed_update<V>(s: Seq<(SegPath, V)>, i: int, v: V)
    requires
        keys_distinct(s),
        0 <= i < s.len(),
    ensures
        keys_distinct(s.update(i, (s[i].0, v))),
        keyed(s.update(i, (s[i].0, v))) == keyed(s).insert(s[i].0, v),
{
    let t = s.update(i, (s[i].0, v));
    assert(keys_distinct(t)) by {
        assert forall|a: int, b: int| 0 <= a < t.len() && 0 <= b < t.len() && a != b implies t[a].0
            != t[b].0 by {
            assert(t[a].0 == s[a].0 && t[b].0 == s[b].0);
        }
    }
    let m = keyed(s).insert(s[i].0, v);
    assert forall|p: SegPath| #[trigger] keyed(t).dom().contains(p) <==> m.dom().contains(p) by {
        if keyed(t).dom().contains(p) {
            let j = choose|j: int| 0 <= j < t.len() && t[j].0 == p;
            assert(s[j].0 == p);
        }
        if m.dom().contains(p) && p != s[i].0 {
            let j = choose|j: int| 0 <= j < s.len() && s[j].0 == p;
            assert(t[j].0 == p);
        }
        if p == s[i].0 {
            assert(t[i].0 == p);
        }
    }
    assert forall|p: SegPath| #[trigger] keyed(t).dom().contains(p) implies keyed(t)[p] == m[p] by {
        let j = choose|j: int| 0 <= j < t.len() && t[j].0 == p;
        lemma_keyed_at(t, j);
        if j != i {
            lemma_keyed_at(s, j);
        }
    }
    assert(keyed(t) =~= m);
}

pub proof fn lemma_keyed_push<V>(s: Seq<(SegPath, V)>, k: SegPath, v: V)
    requires
        keys_distinct(s),
        !keyed(s).dom().contains(k),
    ensures
        keys_distinct(s.push((k, v))),
        keyed(s.push((k, v))) == keyed(s).insert(k, v),
{
    let t = s.push((k, v));
    assert(keys_distinct(t)) by {
        assert forall|a: int, b: int| 0 <= a < t.len() && 0 <= b < t.len() && a != b implies t[a].0
            != t[b].0 by {
            if a < s.len() && b < s.len() {
                assert(t[a].0 == s[a].0 && t[b].0 == s[b].0);
            } else if a < s.len() {
                assert(t[a].0 == s[a].0);
                assert(keyed(s).dom().contains(s[a].0));
            } else {
                assert(t[b].0 == s[b].0);
                assert(keyed(s).dom().contains(s[b].0));
            }
        }
    }
    let m = keyed(s).insert(k, v);
    assert forall|p: SegPath| #[trigger] keyed(t).dom().contains(p) <==> m.dom().contains(p) by {
        if keyed(t).dom().contains(p) && p != k {
            let j = choose|j: int| 0 <= j < t.len() && t[j].0 == p;
            assert(s[j].0 == p);
        }
        if m.dom().contains(p) && p != k {
            let j = choose|j: int| 0 <= j < s.len() && s[j].0 == p;
            assert(t[j].0 == p);
        }
        if p == k {
            assert(t[s.len() as int].0 == p);
        }
    }
    assert forall|p: SegPath| #[trigger] keyed(t).dom().contains(p) implies keyed(t)[p] == m[p] by {
        let j = choose|j: int| 0 <= j < t.len() && t[j].0 == p;
        lemma_keyed_at(t, j);
        if j < s.len() {
            lemma_keyed_at(s, j);
        }
    }
    assert(keyed(t) =~= m);
}

/// Entries that keep their keys and change each value by `f` give the map
/// with every value changed by `f`.
pub proof fn lemma_keyed_map_values<V, W>(s: Seq<(SegPath, V)>, t: Seq<(SegPath, W)>, f: spec_fn(V) -> W)
    requires
        keys_distinct(s),
        t.len() == s.len(),
        forall|i: int| 0 <= i < s.len() ==> #[trigger] t[i] == (s[i].0, f(s[i].1)),
    ensures
        keys_distinct(t),
        keyed(t) == keyed(s).map_values(f),
{
    assert(keys_distinct(t)) by {
        assert forall|a: int, b: int| 0 <= a < t.len() && 0 <= b < t.len() && a != b implies t[a].0
            != t[b].0 by {
            assert(t[a].0 == s[a].0 && t[b].0 == s[b].0);
        }
    }
    let m = keyed(s).map_values(f);
    assert forall|p: SegPath| #[trigger] keyed(t).dom().contains(p) <==> m.dom().contains(p) by {
        if keyed(t).dom().contains(p) {
            let j = choose|j: int| 0 <= j < t.len() && t[j].0 == p;
            assert(t[j] == (s[j].0, f(s[j].1)));
        }
        if m.dom().contains(p) {
            let j = choose|j: int| 0 <= j < s.len() && s[j].0 == p;
            assert(t[j] == (s[j].0, f(s[j].1)));
        }
    }
    assert forall|p: SegPath| #[trigger] keyed(t).dom().contains(p) implies keyed(t)[p] == m[p] by {
        let j = choose|j: int| 0 <= j < t.len() && t[j].0 == p;
        assert(t[j] == (s[j].0, f(s[j].1)));
        lemma_keyed_at(t, j);
        lemma_keyed_at(s, j);
    }
    assert(keyed(t) =~= m);
}

/// Two keyed sequences with no key in common, one after the other, stand
/// for the union of their maps.
pub proof fn lemma_keyed_concat<V>(a: Seq<(SegPath, V)>, b: Seq<(SegPath, V)>)
    requires
        keys_distinct(a),
        keys_distinct(b),
        forall|i: int, j: int| 0 <= i < a.len() && 0 <= j < b.len() ==> a[i].0 != b[j].0,
    ensures
        keys_distinct(a + b),
        keyed(a + b) == keyed(a).union_prefer_right(keyed(b)),
{
    let c = a + b;
    assert(keys_distinct(c)) by {
        assert forall|x: int, y: int| 0 <= x < c.len() && 0 <= y < c.len() && x != y implies c[x].0 != c[y].0 by {
            if x < a.len() && y < a.len() {
                assert(c[x] == a[x] && c[y] == a[y]);
            } else if x < a.len() {
                assert(c[x] == a[x] && c[y] == b[y - a.len()]);
            } else if y < a.len() {
                assert(c[y] == a[y] && c[x] == b[x - a.len()]);
            } else {
                assert(c[x] == b[x - a.len()] && c[y] == b[y - a.len()]);
            }
        }
    }
    let m = keyed(a).union_prefer_right(keyed(b));
    assert forall|p: SegPath| #[trigger] keyed(c).dom().contains(p) <==> m.dom().contains(p) by {
        if keyed(c).dom().contains(p) {
            let k = choose|k: int| 0 <= k < c.len() && c[k].0 == p;
            if k < a.len() {
                assert(a[k].0 == p);
            } else {
                assert(b[k - a.len()].0 == p);
            }
        }
        if keyed(a).dom().contains(p) {
            let k = choose|k: int| 0 <= k < a.len() && a[k].0 == p;
            assert(c[k].0 == p);
        }
        if keyed(b).dom().contains(p) {
            let k = choose|k: int| 0 <= k < b.len() && b[k].0 == p;
            assert(c[k + a.len()].0 == p);
        }
    }
    assert forall|p: SegPath| #[trigger] keyed(c).dom().contains(p) implies keyed(c)[p] == m[p] by {
        let k = choose|k: int| 0 <= k < c.len() && c[k].0 == p;
        lemma_keyed_at(c, k);
        if k < a.len() {
            assert(c[k] == a[k]);
            lemma_keyed_at(a, k);
            if keyed(b).dom().contains(p) {
                let j = choose|j: int| 0 <= j < b.len() && b[j].0 == p;
                assert(false);
            }
        } else {
            assert(c[k] == b[k - a.len()]);
            lemma_keyed_at(b, k - a.len());
        }
    }
    assert(keyed(c) =~= m);
}

} // verus!
