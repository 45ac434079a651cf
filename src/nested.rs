//! The session file's shape: each node nested under its parent, labelled
//! by its own segment.

use vstd::prelude::*;
use crate::model::{SegPath, keys_distinct, keyed, lemma_keyed_at, lemma_keyed_concat};
use crate::tab::TabInstance;
use crate::tracker::{
    records_wf, paths_equal, SerializedSession, SerializedUrlNode, StoredNode, stored_view, record_entries, records_view, prefix_of,
};
use crate::tab::copy_instances;

verus! {

broadcast use vstd::seq::axiom_seq_index_decreases, vstd::std_specs::vec::axiom_vec_decreases_to_view;

/// A persisted node with its children nested under it.
pub struct SessionNode {
    pub sub_part: String,
    pub aggregate_time: u64,
    pub instances: Option<Vec<TabInstance>>,
    pub children: Vec<SessionNode>,
}

pub open spec fn nested_stored(n: SessionNode) -> StoredNode {
    StoredNode {
        aggregate_time: n.aggregate_time,
        instances: match n.instances {
            Some(v) => Some(v@),
            None => None,
        },
    }
}

/// The node and everything under it, each with its full path, the node
/// first.
pub open spec fn node_records(n: SessionNode, prefix: SegPath) -> Seq<(SegPath, StoredNode)>
    decreases n,
{
    let p = prefix.push(n.sub_part@);
    seq![(p, nested_stored(n))] + forest_records(n.children@, p)
}

/// The nodes of a forest and everything under them, each with its full
/// path.
pub open spec fn forest_records(s: Seq<SessionNode>, prefix: SegPath) -> Seq<(SegPath, StoredNode)>
    decreases s,
{
    if s.len() == 0 {
        Seq::empty()
    } else {
        forest_records(s.drop_last(), prefix) + node_records(s.last(), prefix)
    }
}

/// A persisted session in the file's shape.
pub struct NestedSession {
    pub session_name: String,
    pub data: Vec<SessionNode>,
}

fn copy_stored_instances(v: &Option<Vec<TabInstance>>) -> (r: Option<Vec<TabInstance>>)
    ensures
        match (v, r) {
            (Some(a), Some(b)) => a@ == b@,
            (None, None) => true,
            _ => false,
        },
{
    match v {
        Some(a) => Some(copy_instances(a)),
        None => None,
    }
}

/// Appends the node and everything under it to `out`, each with its full
/// path.
fn flatten_node(n: &SessionNode, prefix: &Vec<String>, out: &mut Vec<SerializedUrlNode>)
    ensures
        record_entries(final(out)@) == record_entries(old(out)@) + node_records(*n, prefix.deep_view()),
    decreases n,
{
    let mut path = prefix_of(prefix, prefix.len());
    proof {
        assert(prefix.deep_view().take(prefix@.len() as int) =~= prefix.deep_view());
    }
    let ghost before_push = path.deep_view();
    path.push(n.sub_part.clone());
    let ghost p = path.deep_view();
    proof {
        assert(p =~= prefix.deep_view().push(n.sub_part@));
    }
    let rec = SerializedUrlNode {
        path: prefix_of(&path, path.len()),
        aggregate_time: n.aggregate_time,
        instances: copy_stored_instances(&n.instances),
    };
    proof {
        assert(path.deep_view().take(path@.len() as int) =~= path.deep_view());
        assert(stored_view(rec) == nested_stored(*n));
    }
    let ghost start = record_entries(out@);
    out.push(rec);
    proof {
        assert(record_entries(out@) =~= start.push((p, nested_stored(*n))));
        assert(n.children@.take(0) =~= Seq::<SessionNode>::empty());
        assert(record_entries(out@) =~= start + seq![(p, nested_stored(*n))] + forest_records(n.children@.take(0), p));
    }
    let mut i: usize = 0;
    while i < n.children.len()
        invariant
            p == path.deep_view(),
            i <= n.children@.len(),
            record_entries(out@) == start + seq![(p, nested_stored(*n))] + forest_records(n.children@.take(i as int), p),
        decreases n.children@.len() - i,
    {
        proof {
            assert(n.children@.take(i as int + 1).drop_last() =~= n.children@.take(i as int));
            assert(n.children@.take(i as int + 1).last() == n.children@[i as int]);
        }
        flatten_node(&n.children[i], &path, out);
        proof {
            assert(record_entries(out@) =~= start + seq![(p, nested_stored(*n))] + forest_records(n.children@.take(i as int + 1), p));
        }
        i = i + 1;
    }
    proof {
        assert(n.children@.take(n.children@.len() as int) =~= n.children@);
        assert(record_entries(old(out)@) == start);
        assert(record_entries(out@) =~= start + node_records(*n, prefix.deep_view()));
    }
}

/// The session with every node addressed by its full path.
pub fn flatten_session(session: &NestedSession) -> (r: SerializedSession)
    ensures
        r.session_name@ == session.session_name@,
        record_entries(r.data@) == forest_records(session.data@, Seq::empty()),
{
    let mut out: Vec<SerializedUrlNode> = Vec::new();
    let root: Vec<String> = Vec::new();
    proof {
        assert(root.deep_view() =~= Seq::<Seq<char>>::empty());
        assert(record_entries(out@) =~= Seq::empty());
        assert(session.data@.take(0) =~= Seq::<SessionNode>::empty());
    }
    let mut i: usize = 0;
    while i < session.data.len()
        invariant
            root.deep_view() == Seq::<Seq<char>>::empty(),
            i <= session.data@.len(),
            record_entries(out@) == forest_records(session.data@.take(i as int), Seq::empty()),
        decreases session.data@.len() - i,
    {
        proof {
            assert(session.data@.take(i as int + 1).drop_last() =~= session.data@.take(i as int));
            assert(session.data@.take(i as int + 1).last() == session.data@[i as int]);
        }
        flatten_node(&session.data[i], &root, &mut out);
        i = i + 1;
    }
    proof {
        assert(session.data@.take(session.data@.len() as int) =~= session.data@);
    }
    SerializedSession { session_name: session.session_name.clone(), data: out }
}

/// `q` lies strictly below the node `p`.
pub open spec fn strictly_under(q: SegPath, p: SegPath) -> bool {
    q.len() > p.len() && q.take(p.len() as int) == p
}

/// The part of a tree strictly below the node `p`.
pub open spec fn subtree_of(m: Map<SegPath, StoredNode>, p: SegPath) -> Map<SegPath, StoredNode> {
    Map::new(|q: SegPath| m.dom().contains(q) && strictly_under(q, p), |q: SegPath| m[q])
}

/// The part of the tree below `p` whose child of `p` is the path of one of
/// the first `i` entries.
spec fn covered(m: Map<SegPath, StoredNode>, e: Seq<(SegPath, StoredNode)>, p: SegPath, i: int) -> Map<
    SegPath,
    StoredNode,
> {
    Map::new(
        |q: SegPath|
            m.dom().contains(q) && strictly_under(q, p) && exists|j: int|
                0 <= j < i && e[j].0 == q.take(p.len() as int + 1),
        |q: SegPath| m[q],
    )
}

/// Whether `path` is a child of `prefix`.
fn is_direct_child(path: &Vec<String>, prefix: &Vec<String>) -> (r: bool)
    ensures
        r == (path.deep_view().len() == prefix.deep_view().len() + 1 && path.deep_view().take(
            prefix@.len() as int,
        ) == prefix.deep_view()),
{
    if path.len() == 0 || path.len() - 1 != prefix.len() {
        return false;
    }
    let head = prefix_of(path, prefix.len());
    paths_equal(&head, prefix)
}

proof fn lemma_single_keyed(c: SegPath, v: StoredNode)
    ensures
        keys_distinct(seq![(c, v)]),
        keyed(seq![(c, v)]) == Map::<SegPath, StoredNode>::empty().insert(c, v),
{
    let a = seq![(c, v)];
    lemma_keyed_at(a, 0);
    assert(keyed(a).dom() =~= set![c]);
    assert(keyed(a) =~= Map::<SegPath, StoredNode>::empty().insert(c, v));
}

/// The nodes directly below `prefix`, each with everything below it.
fn nest_under(records: &Vec<SerializedUrlNode>, prefix: &Vec<String>, depth: usize) -> (r: Vec<SessionNode>)
    requires
        forall|j: int| 0 <= j < records@.len() ==> #[trigger] records@[j].path@.len() <= prefix@.len() + depth,
    ensures
        records_wf(records@) ==> keys_distinct(forest_records(r@, prefix.deep_view())) && keyed(
            forest_records(r@, prefix.deep_view()),
        ) == subtree_of(records_view(records@), prefix.deep_view()),
    decreases depth,
{
    let ghost e = record_entries(records@);
    let ghost rv = records_view(records@);
    let ghost pp = prefix.deep_view();
    let mut out: Vec<SessionNode> = Vec::new();
    if depth == 0 {
        proof {
            if records_wf(records@) {
                assert(forest_records(out@, pp) =~= Seq::empty());
                assert forall|q: SegPath| !#[trigger] subtree_of(rv, pp).dom().contains(q) by {
                    if rv.dom().contains(q) {
                        let j = choose|j: int| 0 <= j < e.len() && e[j].0 == q;
                        assert(records@[j].path@.len() <= prefix@.len());
                    }
                }
                assert(keyed(forest_records(out@, pp)) =~= subtree_of(rv, pp));
            }
        }
        return out;
    }
    proof {
        assert(forest_records(out@, pp) =~= Seq::empty());
        assert(keyed(forest_records(out@, pp)) =~= covered(rv, e, pp, 0));
    }
    let mut i: usize = 0;
    while i < records.len()
        invariant
            e == record_entries(records@),
            rv == records_view(records@),
            pp == prefix.deep_view(),
            depth > 0,
            i <= records@.len(),
            forall|j: int| 0 <= j < records@.len() ==> #[trigger] records@[j].path@.len() <= prefix@.len() + depth,
            records_wf(records@) ==> keys_distinct(forest_records(out@, pp)) && keyed(forest_records(out@, pp))
                == covered(rv, e, pp, i as int),
        decreases records@.len() - i,
    {
        let rec = &records[i];
        if is_direct_child(&rec.path, prefix) {
            let children = nest_under(records, &rec.path, depth - 1);
            let sub_part = rec.path[rec.path.len() - 1].clone();
            let node = SessionNode {
                sub_part,
                aggregate_time: rec.aggregate_time,
                instances: copy_stored_instances(&rec.instances),
                children,
            };
            let ghost before = out@;
            out.push(node);
            proof {
                if records_wf(records@) {
                    let c = e[i as int].0;
                    let st = e[i as int].1;
                    assert(c == rec.path.deep_view());
                    assert(nested_stored(node) == st);
                    assert(c =~= pp.push(node.sub_part@));
                    let f = forest_records(children@, c);
                    let nr = node_records(node, pp);
                    assert(nr == seq![(c, st)] + f);
                    lemma_single_keyed(c, st);
                    assert forall|a: int, b: int| 0 <= a < 1 && 0 <= b < f.len() implies seq![(c, st)][a].0 != f[b].0 by {
                        lemma_keyed_at(f, b);
                    }
                    lemma_keyed_concat(seq![(c, st)], f);
                    let o = forest_records(before, pp);
                    assert(out@.drop_last() =~= before);
                    assert(forest_records(out@, pp) == o + nr);
                    lemma_keyed_at(e, i as int);
                    assert forall|a: int, b: int| 0 <= a < o.len() && 0 <= b < nr.len() implies o[a].0 != nr[b].0 by {
                        lemma_keyed_at(o, a);
                        lemma_keyed_at(nr, b);
                        let k = nr[b].0;
                        if k == c {
                            assert(k.take(pp.len() as int + 1) =~= c);
                        } else {
                            assert(k.take(c.len() as int) == c);
                            assert(k.take(pp.len() as int + 1) =~= c);
                        }
                        let j = choose|j: int| 0 <= j < i && e[j].0 == o[a].0.take(pp.len() as int + 1);
                        assert(e[j].0 != e[i as int].0);
                    }
                    lemma_keyed_concat(o, nr);
                    let lhs = keyed(forest_records(out@, pp));
                    let target = covered(rv, e, pp, i as int + 1);
                    assert forall|q: SegPath| #[trigger] lhs.dom().contains(q) <==> target.dom().contains(q) by {
                        if target.dom().contains(q) {
                            let j = choose|j: int| 0 <= j < i + 1 && e[j].0 == q.take(pp.len() as int + 1);
                            if j == i {
                                if q.len() == pp.len() + 1 {
                                    assert(q.take(pp.len() as int + 1) =~= q);
                                } else {
                                    assert(q.take(c.len() as int) =~= q.take(pp.len() as int + 1));
                                    assert(subtree_of(rv, c).dom().contains(q));
                                }
                            } else {
                                assert(covered(rv, e, pp, i as int).dom().contains(q));
                            }
                        }
                        if lhs.dom().contains(q) {
                            if q == c {
                                assert(c.take(pp.len() as int) == pp);
                                assert(q.take(pp.len() as int + 1) =~= c);
                            } else if subtree_of(rv, c).dom().contains(q) {
                                assert(q.take(pp.len() as int) =~= q.take(c.len() as int).take(pp.len() as int));
                                assert(q.take(pp.len() as int + 1) =~= q.take(c.len() as int));
                            } else {
                                assert(covered(rv, e, pp, i as int).dom().contains(q));
                                let j = choose|j: int| 0 <= j < i && e[j].0 == q.take(pp.len() as int + 1);
                                assert(0 <= j < i + 1 && e[j].0 == q.take(pp.len() as int + 1));
                            }
                        }
                    }
                    assert(lhs =~= target);
                }
            }
        } else {
            proof {
                if records_wf(records@) {
                    let a = covered(rv, e, pp, i as int);
                    let b = covered(rv, e, pp, i as int + 1);
                    assert forall|q: SegPath| #[trigger] b.dom().contains(q) implies a.dom().contains(q) by {
                        let j = choose|j: int| 0 <= j < i + 1 && e[j].0 == q.take(pp.len() as int + 1);
                        if j == i {
                            assert(q.take(pp.len() as int + 1).take(pp.len() as int) =~= q.take(pp.len() as int));
                            assert(rec.path.deep_view() == e[j].0);
                            assert(false);
                        }
                    }
                    assert(a =~= b);
                }
            }
        }
        i = i + 1;
    }
    proof {
        if records_wf(records@) {
            let a = covered(rv, e, pp, records@.len() as int);
            let b = subtree_of(rv, pp);
            assert forall|q: SegPath| #[trigger] b.dom().contains(q) implies a.dom().contains(q) by {
                let c = q.take(pp.len() as int + 1);
                if q.len() == pp.len() + 1 {
                    assert(c =~= q);
                } else {
                    assert(rv.dom().contains(q.take(pp.len() as int + 1)));
                }
                let j = choose|j: int| 0 <= j < e.len() && e[j].0 == c;
                assert(0 <= j < records@.len());
            }
            assert(a =~= b);
        }
    }
    out
}

/// The session in the file's shape.
pub fn nest_session(session: &SerializedSession) -> (r: NestedSession)
    ensures
        r.session_name@ == session.session_name@,
        records_wf(session.data@) ==> keys_distinct(forest_records(r.data@, Seq::empty())) && keyed(
            forest_records(r.data@, Seq::empty()),
        ) == records_view(session.data@),
{
    let mut depth: usize = 0;
    let mut i: usize = 0;
    while i < session.data.len()
        invariant
            i <= session.data@.len(),
            forall|j: int| 0 <= j < i ==> #[trigger] session.data@[j].path@.len() <= depth,
        decreases session.data@.len() - i,
    {
        if session.data[i].path.len() > depth {
            depth = session.data[i].path.len();
        }
        i = i + 1;
    }
    let root: Vec<String> = Vec::new();
    proof {
        assert(root.deep_view() =~= Seq::<Seq<char>>::empty());
    }
    let data = nest_under(&session.data, &root, depth);
    proof {
        if records_wf(session.data@) {
            let rv = records_view(session.data@);
            assert forall|q: SegPath| #[trigger] rv.dom().contains(q) implies strictly_under(q, Seq::empty()) by {
                assert(q.take(0) =~= Seq::<Seq<char>>::empty());
                if q.len() == 0 {
                    assert(q =~= Seq::<Seq<char>>::empty());
                }
            }
            assert(subtree_of(rv, Seq::empty()) =~= rv);
        }
    }
    NestedSession { session_name: session.session_name.clone(), data }
}

} // verus!
