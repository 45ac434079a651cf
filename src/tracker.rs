//! The tracker: a session name and the tree of URL nodes it accumulates
//! time in.

use vstd::prelude::*;
use crate::model::{SegPath, keys_distinct, keyed, prefix_closed, is_prefix_of, lemma_keyed_at,
    lemma_keyed_update, lemma_keyed_push, lemma_keyed_map_values};
use crate::node::{NodeState, UrlNode};
use crate::clock::current_timestamp;
use crate::segments::{parse_url_parts, parsed_path, UrlError};
use crate::tab::{
    TabInstance, tab_ids_unique, has_tab, tab_index, focus_tabs, pending_total, active_count, copy_instances,
    dedup_instances,
};

verus! {

pub open spec fn empty_state() -> NodeState {
    NodeState { aggregate_time: 0, instances: Seq::empty() }
}

/// The tree is prefix-closed and no node holds two instances of one tab.
pub open spec fn tree_wf(m: Map<SegPath, NodeState>) -> bool {
    &&& prefix_closed(m)
    &&& forall|p: SegPath| #[trigger] m.dom().contains(p) ==> tab_ids_unique(m[p].instances)
}

/// The tree after every node on the way to `p` exists: missing ones are
/// added with no time and no tabs, present ones are kept as they are.
pub open spec fn with_path(m: Map<SegPath, NodeState>, p: SegPath) -> Map<SegPath, NodeState> {
    Map::new(
        |q: SegPath| m.dom().contains(q) || is_prefix_of(q, p),
        |q: SegPath| if m.dom().contains(q) { m[q] } else { empty_state() },
    )
}

/// The tree after `tab_id` gains focus at `now` at the node `p`, which is
/// created with its missing ancestors first.
pub open spec fn focused_tree(m: Map<SegPath, NodeState>, p: SegPath, tab_id: u32, now: u64) -> Map<
    SegPath,
    NodeState,
> {
    let w = with_path(m, p);
    w.insert(
        p,
        NodeState {
            aggregate_time: w[p].aggregate_time,
            instances: focus_tabs(w[p].instances, tab_id, now),
        },
    )
}

/// The node `p` exists and holds an instance of `tab_id`.
pub open spec fn tab_known(m: Map<SegPath, NodeState>, p: SegPath, tab_id: u32) -> bool {
    m.dom().contains(p) && has_tab(m[p].instances, tab_id)
}

/// The tree after `tab_id` at `p` loses focus at `now`.
pub open spec fn unfocused_tree(m: Map<SegPath, NodeState>, p: SegPath, tab_id: u32, now: u64) -> Map<
    SegPath,
    NodeState,
> {
    let s = m[p].instances;
    let i = tab_index(s, tab_id);
    m.insert(p, NodeState { aggregate_time: m[p].aggregate_time, instances: s.update(i, s[i].paused(now)) })
}

/// The tree after `tab_id` at `p` is closed at `now`.
pub open spec fn closed_tree(m: Map<SegPath, NodeState>, p: SegPath, tab_id: u32, now: u64) -> Map<
    SegPath,
    NodeState,
> {
    let s = m[p].instances;
    let i = tab_index(s, tab_id);
    m.insert(
        p,
        NodeState {
            aggregate_time: m[p].aggregate_time.saturating_add(s[i].pending(now)),
            instances: s.remove(i),
        },
    )
}

/// A node after its instances handed their pending time to it at `now`.
pub open spec fn swept_state(s: NodeState, now: u64) -> NodeState {
    NodeState {
        aggregate_time: s.aggregate_time.saturating_add(pending_total(s.instances, now)),
        instances: s.instances.map_values(|t: TabInstance| t.flushed(now)),
    }
}

/// The tree after the aggregation sweep at `now`.
pub open spec fn swept(m: Map<SegPath, NodeState>, now: u64) -> Map<SegPath, NodeState> {
    m.map_values(|s: NodeState| swept_state(s, now))
}

/// The segments of a path joined by `/`.
pub open spec fn joined(p: SegPath) -> Seq<char>
    decreases p.len(),
{
    if p.len() == 0 {
        Seq::empty()
    } else if p.len() == 1 {
        p[0]
    } else {
        joined(p.drop_last()) + seq!['/'] + p.last()
    }
}

/// `row` reports the node at `p`, which held `before` when the sweep at
/// `now` began and has time after it.
pub open spec fn report_row(row: TrackingData, p: SegPath, before: NodeState, now: u64) -> bool {
    &&& row.path@ == joined(p)
    &&& row.aggregate_time == swept_state(before, now).aggregate_time
    &&& row.aggregate_time > 0
    &&& row.total_instances == before.instances.len()
    &&& row.active_instances == active_count(before.instances)
}

/// A report of a tree swept at `now`: one row for each node that has time
/// after the sweep, and no other, in no particular order.
pub open spec fn is_report(rows: Seq<TrackingData>, m: Map<SegPath, NodeState>, now: u64) -> bool {
    exists|keys: Seq<SegPath>|
        {
            &&& keys.len() == rows.len()
            &&& keys.no_duplicates()
            &&& forall|t: int| 0 <= t < keys.len() ==> m.dom().contains(#[trigger] keys[t])
                && report_row(rows[t], keys[t], m[keys[t]], now)
            &&& forall|p: SegPath| #[trigger] m.dom().contains(p) && swept_state(m[p], now).aggregate_time
                > 0 ==> keys.contains(p)
        }
}

/// What a persisted node holds: its aggregate time and, in a full
/// snapshot, its instances.
pub struct StoredNode {
    pub aggregate_time: u64,
    pub instances: Option<Seq<TabInstance>>,
}

pub open spec fn stored_view(n: SerializedUrlNode) -> StoredNode {
    StoredNode {
        aggregate_time: n.aggregate_time,
        instances: match n.instances {
            Some(v) => Some(v@),
            None => None,
        },
    }
}

pub open spec fn record_entries(data: Seq<SerializedUrlNode>) -> Seq<(SegPath, StoredNode)> {
    data.map_values(|n: SerializedUrlNode| (n.path.deep_view(), stored_view(n)))
}

/// The tree that persisted records stand for.
pub open spec fn records_view(data: Seq<SerializedUrlNode>) -> Map<SegPath, StoredNode> {
    keyed(record_entries(data))
}

/// Records that describe a tree: distinct paths, closed under prefixes, and
/// no two instances of one tab at a node.
pub open spec fn records_wf(data: Seq<SerializedUrlNode>) -> bool {
    &&& keys_distinct(record_entries(data))
    &&& prefix_closed(records_view(data))
    &&& forall|p: SegPath| #[trigger] records_view(data).dom().contains(p)
        ==> (records_view(data)[p].instances matches Some(s) ==> tab_ids_unique(s))
}

/// Records whose paths are distinct and closed under prefixes.
pub open spec fn records_shape_wf(data: Seq<SerializedUrlNode>) -> bool {
    &&& keys_distinct(record_entries(data))
    &&& prefix_closed(records_view(data))
}

/// Records that a restore rebuilds exactly: a tree, and for a restore that
/// keeps instances, no two instances of one tab at a node.
pub open spec fn restorable(data: Seq<SerializedUrlNode>, fresh_session: bool) -> bool {
    &&& records_shape_wf(data)
    &&& (fresh_session || records_wf(data))
}

/// How a node is persisted, with or without its instances.
pub open spec fn stored_state(s: NodeState, include_tabs: bool) -> StoredNode {
    StoredNode {
        aggregate_time: s.aggregate_time,
        instances: if include_tabs {
            Some(s.instances)
        } else {
            None
        },
    }
}

/// The persisted form of a whole tree.
pub open spec fn snapshot_of(m: Map<SegPath, NodeState>, include_tabs: bool) -> Map<SegPath, StoredNode> {
    m.map_values(|s: NodeState| stored_state(s, include_tabs))
}

/// A node rebuilt from its persisted form; a fresh session keeps no
/// instances.
pub open spec fn restored_state(v: StoredNode, fresh_session: bool) -> NodeState {
    NodeState {
        aggregate_time: v.aggregate_time,
        instances: if fresh_session {
            Seq::empty()
        } else {
            match v.instances {
                Some(s) => s,
                None => Seq::empty(),
            }
        },
    }
}

/// The tree rebuilt from persisted records.
pub open spec fn restored_tree(data: Seq<SerializedUrlNode>, fresh_session: bool) -> Map<SegPath, NodeState> {
    records_view(data).map_values(|v: StoredNode| restored_state(v, fresh_session))
}

/// The tree after one event on `tab_id` at `p` at `now`; an unfocus or a
/// close of a tab that is not there changes nothing.
pub open spec fn after_event(m: Map<SegPath, NodeState>, p: SegPath, tab_id: u32, op: TabOperation, now: u64) -> Map<
    SegPath,
    NodeState,
> {
    match op {
        TabOperation::Focus => focused_tree(m, p, tab_id, now),
        TabOperation::Unfocus => if tab_known(m, p, tab_id) {
            unfocused_tree(m, p, tab_id, now)
        } else {
            m
        },
        TabOperation::Close => if tab_known(m, p, tab_id) {
            closed_tree(m, p, tab_id, now)
        } else {
            m
        },
    }
}

pub open spec fn node_entries(nodes: Seq<UrlNode>) -> Seq<(SegPath, NodeState)> {
    nodes.map_values(|n: UrlNode| (n.key(), n.state()))
}

pub proof fn lemma_with_path_wf(m: Map<SegPath, NodeState>, p: SegPath)
    requires
        tree_wf(m),
    ensures
        tree_wf(with_path(m, p)),
{
    let w = with_path(m, p);
    assert forall|q: SegPath, k: int| w.dom().contains(q) && 0 < k < q.len() implies #[trigger] w.dom().contains(
        #[trigger] q.take(k)) by {
        if m.dom().contains(q) {
            assert(m.dom().contains(q.take(k)));
        } else {
            assert(q.take(k) =~= p.take(k));
            assert(is_prefix_of(q.take(k), p));
        }
    }
    assert(!w.dom().contains(Seq::empty()));
    assert forall|q: SegPath| #[trigger] w.dom().contains(q) implies tab_ids_unique(w[q].instances) by {
        if m.dom().contains(q) {
        } else {
            assert(w[q] == empty_state());
        }
    }
}

pub proof fn lemma_with_path_step(m: Map<SegPath, NodeState>, p: SegPath, k: int)
    requires
        0 <= k < p.len(),
    ensures
        with_path(m, p.take(k)).dom().contains(p.take(k + 1)) ==> with_path(m, p.take(k + 1))
            == with_path(m, p.take(k)),
        !with_path(m, p.take(k)).dom().contains(p.take(k + 1)) ==> with_path(m, p.take(k + 1))
            == with_path(m, p.take(k)).insert(p.take(k + 1), empty_state()),
{
    let a = with_path(m, p.take(k));
    let b = with_path(m, p.take(k + 1));
    let q1 = p.take(k + 1);
    assert forall|q: SegPath| is_prefix_of(q, q1) <==> (is_prefix_of(q, p.take(k)) || q == q1) by {
        if is_prefix_of(q, q1) && q.len() <= k {
            assert(q1.take(q.len() as int) =~= p.take(k).take(q.len() as int));
        }
        if is_prefix_of(q, q1) && q.len() == k + 1 {
            assert(q1.take(q.len() as int) =~= q1);
        }
        if is_prefix_of(q, p.take(k)) {
            assert(q1.take(q.len() as int) =~= p.take(k).take(q.len() as int));
        }
        if q == q1 {
            assert(q1.take(q.len() as int) =~= q1);
        }
    }
    assert(!is_prefix_of(q1, p.take(k)));
    if a.dom().contains(q1) {
        assert(m.dom().contains(q1));
        assert(b =~= a);
    } else {
        assert(b =~= a.insert(q1, empty_state()));
    }
}

pub proof fn lemma_with_path_empty(m: Map<SegPath, NodeState>)
    ensures
        with_path(m, Seq::empty()) == m,
{
    assert(with_path(m, Seq::empty()) =~= m);
}

/// One row of the report: a node's full path, its aggregate time and its
/// instances.
#[derive(Debug)]
pub struct TrackingData {
    pub path: String,
    pub aggregate_time: u64,
    pub total_instances: usize,
    pub active_instances: usize,
}

/// A persisted node: its full path, its aggregate time and, in a full
/// snapshot, its instances.
pub struct SerializedUrlNode {
    pub path: Vec<String>,
    pub aggregate_time: u64,
    pub instances: Option<Vec<TabInstance>>,
}

/// A persisted session: its name and its nodes.
pub struct SerializedSession {
    pub session_name: String,
    pub data: Vec<SerializedUrlNode>,
}

/// The three tab events.
#[derive(Clone, Copy, Debug, PartialEq, Eq, Structural)]
pub enum TabOperation {
    Focus,
    Unfocus,
    Close,
}

/// Why a tab event could not be applied.
#[derive(Debug, PartialEq, Eq)]
pub enum TrackerError {
    /// The URL gives no node path; the text says why.
    InvalidUrl(String),
    /// No instance of this tab at the node the URL leads to.
    TabNotFound(u32),
}

/// The time tracked in one session: a tree of URL nodes, kept as an arena of
/// nodes each addressed by its full path.
pub struct Tracker {
    nodes: Vec<UrlNode>,
    session_name: String,
}

impl Tracker {
    /// The tree, from each node's path to what the node holds.
    pub closed spec fn view(&self) -> Map<SegPath, NodeState> {
        keyed(node_entries(self.nodes@))
    }

    pub closed spec fn name(&self) -> Seq<char> {
        self.session_name@
    }

    pub closed spec fn wf(&self) -> bool {
        &&& keys_distinct(node_entries(self.nodes@))
        &&& tree_wf(self.view())
    }

    proof fn lemma_node(&self, i: int)
        requires
            self.wf(),
            0 <= i < self.nodes@.len(),
        ensures
            self.view().dom().contains(self.nodes@[i].key()),
            self.view()[self.nodes@[i].key()] == self.nodes@[i].state(),
            self.nodes@[i].wf(),
    {
        lemma_keyed_at(node_entries(self.nodes@), i);
    }

    /// A tracker with no nodes.
    pub fn new(session_name: String) -> (r: Tracker)
        ensures
            r.wf(),
            r.view() == Map::<SegPath, NodeState>::empty(),
            r.name() == session_name@,
    {
        let r = Tracker { nodes: Vec::new(), session_name };
        assert(r.view() =~= Map::<SegPath, NodeState>::empty());
        r
    }

    pub fn get_session_name(&self) -> (r: &str)
        ensures
            r@ == self.name(),
    {
        self.session_name.as_str()
    }

    /// How many nodes the tree has.
    pub fn node_count(&self) -> (r: usize)
        requires
            self.wf(),
        ensures
            r == self.view().dom().len(),
    {
        proof {
            self.lemma_view_len();
        }
        self.nodes.len()
    }

    proof fn lemma_view_len(&self)
        requires
            self.wf(),
        ensures
            self.view().dom().finite(),
            self.view().dom().len() == self.nodes@.len(),
        decreases self.nodes@.len(),
    {
        let e = node_entries(self.nodes@);
        let keys = e.map_values(|x: (SegPath, NodeState)| x.0);
        assert(keys.no_duplicates());
        assert(self.view().dom() =~= keys.to_set()) by {
            assert forall|p: SegPath| self.view().dom().contains(p) implies keys.to_set().contains(p) by {
                let j = choose|j: int| 0 <= j < e.len() && e[j].0 == p;
                assert(keys[j] == p);
            }
            assert forall|p: SegPath| keys.to_set().contains(p) implies self.view().dom().contains(p) by {
                let j = choose|j: int| 0 <= j < keys.len() && keys[j] == p;
                assert(e[j].0 == p);
            }
        }
        keys.unique_seq_to_set();
    }

    /// Finds the node with exactly this path.
    fn find_node(&self, parts: &Vec<String>) -> (r: Option<usize>)
        requires
            self.wf(),
        ensures
            r matches Some(i) ==> i < self.nodes@.len() && self.nodes@[i as int].key()
                == parts.deep_view(),
            r is None <==> !self.view().dom().contains(parts.deep_view()),
    {
        let mut i: usize = 0;
        while i < self.nodes.len()
            invariant
                self.wf(),
                i <= self.nodes@.len(),
                forall|j: int| 0 <= j < i ==> self.nodes@[j].key() != parts.deep_view(),
            decreases self.nodes@.len() - i,
        {
            if paths_equal(&self.nodes[i].path, parts) {
                proof {
                    self.lemma_node(i as int);
                }
                return Some(i);
            }
            i = i + 1;
        }
        proof {
            let e = node_entries(self.nodes@);
            if self.view().dom().contains(parts.deep_view()) {
                let j = choose|j: int| 0 <= j < e.len() && e[j].0 == parts.deep_view();
                assert(self.nodes@[j].key() == e[j].0);
            }
        }
        None
    }

    /// Makes sure every node on the way to `parts` exists and returns the
    /// position of the last one.
    fn find_or_create_node(&mut self, parts: &Vec<String>) -> (r: usize)
        requires
            old(self).wf(),
            parts@.len() > 0,
        ensures
            final(self).wf(),
            final(self).name() == old(self).name(),
            final(self).view() == with_path(old(self).view(), parts.deep_view()),
            r < final(self).nodes@.len(),
            final(self).nodes@[r as int].key() == parts.deep_view(),
    {
        let ghost p = parts.deep_view();
        let ghost m0 = self.view();
        proof {
            lemma_with_path_empty(m0);
            assert(p.take(0) =~= Seq::<Seq<char>>::empty());
        }
        let mut k: usize = 0;
        while k < parts.len()
            invariant
                p == parts.deep_view(),
                k <= p.len(),
                self.wf(),
                self.name() == old(self).name(),
                m0 == old(self).view(),
                tree_wf(m0),
                self.view() == with_path(m0, p.take(k as int)),
            decreases p.len() - k,
        {
            let pre = prefix_of(parts, k + 1);
            proof {
                lemma_with_path_step(m0, p, k as int);
            }
            match self.find_node(&pre) {
                Some(_) => {},
                None => {
                    let ghost old_nodes = self.nodes@;
                    let n = UrlNode::new(pre);
                    assert(n.key() == p.take(k + 1));
                    self.nodes.push(n);
                    proof {
                        assert(node_entries(self.nodes@) =~= node_entries(old_nodes).push(
                            (n.key(), n.state()),
                        ));
                        assert(n.instances@ =~= Seq::<TabInstance>::empty());
                        assert(n.state() == empty_state());
                        lemma_keyed_push(node_entries(old_nodes), n.key(), n.state());
                        lemma_with_path_wf(m0, p.take(k as int + 1));
                    }
                },
            }
            k = k + 1;
        }
        proof {
            assert(p.take(p.len() as int) =~= p);
        }
        match self.find_node(parts) {
            Some(i) => i,
            None => {
                proof {
                    assert(is_prefix_of(p, p));
                }
                0
            },
        }
    }

    /// Replaces the node at `i` by one with the same path.
    proof fn lemma_replace_node(old_nodes: Seq<UrlNode>, new_nodes: Seq<UrlNode>, i: int)
        requires
            keys_distinct(node_entries(old_nodes)),
            tree_wf(keyed(node_entries(old_nodes))),
            0 <= i < old_nodes.len(),
            new_nodes == old_nodes.update(i, new_nodes[i]),
            new_nodes[i].key() == old_nodes[i].key(),
            new_nodes[i].wf(),
        ensures
            keys_distinct(node_entries(new_nodes)),
            keyed(node_entries(new_nodes)) == keyed(node_entries(old_nodes)).insert(
                old_nodes[i].key(),
                new_nodes[i].state(),
            ),
            tree_wf(keyed(node_entries(new_nodes))),
    {
        let e = node_entries(old_nodes);
        assert(node_entries(new_nodes) =~= e.update(i, (e[i].0, new_nodes[i].state())));
        lemma_keyed_update(e, i, new_nodes[i].state());
        lemma_keyed_at(e, i);
        let m2 = keyed(node_entries(new_nodes));
        assert(m2.dom() =~= keyed(e).dom());
    }

    /// Focuses `tab_id` at `now` at the node with path `parts`, creating the
    /// node and its missing ancestors.
    pub fn focus_tab(&mut self, parts: &Vec<String>, tab_id: u32, now: u64)
        requires
            old(self).wf(),
            parts@.len() > 0,
        ensures
            final(self).wf(),
            final(self).name() == old(self).name(),
            final(self).view() == focused_tree(old(self).view(), parts.deep_view(), tab_id, now),
    {
        let i = self.find_or_create_node(parts);
        let ghost before = self.nodes@;
        proof {
            self.lemma_node(i as int);
        }
        self.nodes[i].add_tab_instance(tab_id, now);
        proof {
            Self::lemma_replace_node(before, self.nodes@, i as int);
        }
    }

    /// Unfocuses `tab_id` at `now` at the node with path `parts`.
    pub fn unfocus_tab(&mut self, parts: &Vec<String>, tab_id: u32, now: u64) -> (r: Result<(), TrackerError>)
        requires
            old(self).wf(),
        ensures
            final(self).wf(),
            final(self).name() == old(self).name(),
            r is Ok <==> tab_known(old(self).view(), parts.deep_view(), tab_id),
            r is Ok ==> final(self).view() == unfocused_tree(old(self).view(), parts.deep_view(), tab_id, now),
            r is Err ==> final(self).view() == old(self).view() && r == Err::<(), TrackerError>(TrackerError::TabNotFound(tab_id)),
    {
        match self.find_node(parts) {
            None => Err(TrackerError::TabNotFound(tab_id)),
            Some(i) => {
                let ghost before = self.nodes@;
                proof {
                    self.lemma_node(i as int);
                }
                let found = self.nodes[i].unfocus_tab_instance(tab_id, now);
                proof {
                    Self::lemma_replace_node(before, self.nodes@, i as int);
                    if !found {
                        assert(self.nodes@[i as int].state() == before[i as int].state());
                        assert(self.view() =~= old(self).view());
                    }
                }
                if found {
                    Ok(())
                } else {
                    Err(TrackerError::TabNotFound(tab_id))
                }
            },
        }
    }

    /// Closes `tab_id` at `now` at the node with path `parts`: the tab's time
    /// joins the node's aggregate.
    pub fn close_tab(&mut self, parts: &Vec<String>, tab_id: u32, now: u64) -> (r: Result<(), TrackerError>)
        requires
            old(self).wf(),
        ensures
            final(self).wf(),
            final(self).name() == old(self).name(),
            r is Ok <==> tab_known(old(self).view(), parts.deep_view(), tab_id),
            r is Ok ==> final(self).view() == closed_tree(old(self).view(), parts.deep_view(), tab_id, now),
            r is Err ==> final(self).view() == old(self).view() && r == Err::<(), TrackerError>(TrackerError::TabNotFound(tab_id)),
    {
        match self.find_node(parts) {
            None => Err(TrackerError::TabNotFound(tab_id)),
            Some(i) => {
                let ghost before = self.nodes@;
                proof {
                    self.lemma_node(i as int);
                }
                let found = self.nodes[i].close_tab_instance(tab_id, now);
                proof {
                    Self::lemma_replace_node(before, self.nodes@, i as int);
                    if !found {
                        assert(self.nodes@[i as int].state() == before[i as int].state());
                        assert(self.view() =~= old(self).view());
                    }
                }
                if found {
                    Ok(())
                } else {
                    Err(TrackerError::TabNotFound(tab_id))
                }
            },
        }
    }

    proof fn lemma_swept_wf(m: Map<SegPath, NodeState>, now: u64)
        requires
            tree_wf(m),
        ensures
            tree_wf(swept(m, now)),
    {
        let w = swept(m, now);
        assert(w.dom() =~= m.dom());
        assert forall|p: SegPath| #[trigger] w.dom().contains(p) implies tab_ids_unique(w[p].instances) by {
            let s = m[p].instances;
            let f = w[p].instances;
            assert forall|a: int, b: int| 0 <= a < f.len() && 0 <= b < f.len() && a != b implies f[a].tab_id
                != f[b].tab_id by {
                assert(f[a].tab_id == s[a].tab_id && f[b].tab_id == s[b].tab_id);
            }
        }
    }

    /// Sweeps the node at `i` and reports it in `rows` when it has time.
    fn sweep_node(&mut self, i: usize, now: u64, rows: &mut Vec<TrackingData>)
        requires
            i < old(self).nodes@.len(),
            old(self).nodes@[i as int].wf(),
        ensures
            final(self).nodes@ == old(self).nodes@.update(i as int, final(self).nodes@[i as int]),
            final(self).nodes@[i as int].key() == old(self).nodes@[i as int].key(),
            final(self).nodes@[i as int].state() == swept_state(old(self).nodes@[i as int].state(), now),
            final(self).nodes@[i as int].wf(),
            final(self).session_name == old(self).session_name,
            final(self).nodes@[i as int].aggregate_time > 0 ==> final(rows)@ == old(rows)@.push(final(rows)@.last())
                && report_row(final(rows)@.last(), old(self).nodes@[i as int].key(), old(self).nodes@[i as int].state(), now),
            final(self).nodes@[i as int].aggregate_time == 0 ==> final(rows)@ == old(rows)@,
    {
        let (aggregate_time, active_instances, total_instances) = self.nodes[i].accumulate_all_instances(now);
        if aggregate_time > 0 {
            let path = join_path(&self.nodes[i].path);
            rows.push(TrackingData { path, aggregate_time, total_instances, active_instances });
        }
    }

    /// Sweeps every node at `current_time` and reports each node that has
    /// time afterwards.
    pub fn collect_tracking_data(&mut self, current_time: u64) -> (r: Vec<TrackingData>)
        requires
            old(self).wf(),
        ensures
            final(self).wf(),
            final(self).name() == old(self).name(),
            final(self).view() == swept(old(self).view(), current_time),
            is_report(r@, old(self).view(), current_time),
    {
        let ghost old_nodes = self.nodes@;
        let ghost m0 = self.view();
        let mut rows: Vec<TrackingData> = Vec::new();
        let ghost mut keys: Seq<SegPath> = Seq::empty();
        let ghost mut idxs: Seq<int> = Seq::empty();
        let mut i: usize = 0;
        proof {
            assert forall|j: int| 0 <= j < old_nodes.len() implies #[trigger] self.nodes@[j].wf() by {
                old(self).lemma_node(j);
            }
        }
        while i < self.nodes.len()
            invariant
                old_nodes == old(self).nodes@,
                m0 == old(self).view(),
                old(self).wf(),
                self.session_name == old(self).session_name,
                self.nodes@.len() == old_nodes.len(),
                i <= old_nodes.len(),
                forall|j: int| 0 <= j < old_nodes.len() ==> #[trigger] self.nodes@[j].key() == old_nodes[j].key(),
                forall|j: int| 0 <= j < i ==> #[trigger] self.nodes@[j].state() == swept_state(old_nodes[j].state(), current_time),
                forall|j: int| i <= j < old_nodes.len() ==> #[trigger] self.nodes@[j] == old_nodes[j],
                forall|j: int| 0 <= j < old_nodes.len() ==> #[trigger] self.nodes@[j].wf(),
                keys.len() == rows@.len(),
                idxs.len() == rows@.len(),
                forall|t: int| 0 <= t < idxs.len() ==> 0 <= #[trigger] idxs[t] < i,
                forall|t: int, u: int| 0 <= t < u < idxs.len() ==> idxs[t] < idxs[u],
                forall|t: int| 0 <= t < idxs.len() ==> #[trigger] keys[t] == old_nodes[idxs[t]].key(),
                forall|t: int| 0 <= t < idxs.len() ==> report_row(#[trigger] rows@[t], keys[t], old_nodes[idxs[t]].state(), current_time),
                forall|j: int| 0 <= j < i && #[trigger] swept_state(old_nodes[j].state(), current_time).aggregate_time > 0
                    ==> exists|t: int| 0 <= t < idxs.len() && idxs[t] == j,
            decreases old_nodes.len() - i,
        {
            proof {
                old(self).lemma_node(i as int);
            }
            let ghost before_rows = rows@;
            let ghost before_idxs = idxs;
            self.sweep_node(i, current_time, &mut rows);
            proof {
                if rows@.len() > before_rows.len() {
                    keys = keys.push(old_nodes[i as int].key());
                    idxs = idxs.push(i as int);
                    assert(idxs[idxs.len() - 1] == i);
                }
                assert forall|j: int| 0 <= j < i + 1 && #[trigger] swept_state(old_nodes[j].state(), current_time).aggregate_time > 0
                    implies exists|t: int| 0 <= t < idxs.len() && idxs[t] == j by {
                    if j < i {
                        let t = choose|t: int| 0 <= t < before_idxs.len() && before_idxs[t] == j;
                        assert(idxs[t] == j);
                    } else {
                        assert(idxs[idxs.len() - 1] == j);
                    }
                }
            }
            i = i + 1;
        }
        proof {
            let e0 = node_entries(old_nodes);
            let e1 = node_entries(self.nodes@);
            assert forall|j: int| 0 <= j < e0.len() implies #[trigger] e1[j] == (e0[j].0, swept_state(e0[j].1, current_time)) by {}
            lemma_keyed_map_values(e0, e1, |s: NodeState| swept_state(s, current_time));
            assert(self.view() =~= swept(m0, current_time));
            Self::lemma_swept_wf(m0, current_time);
            assert(keys.no_duplicates()) by {
                assert forall|a: int, b: int| 0 <= a < keys.len() && 0 <= b < keys.len() && a != b implies keys[a] != keys[b] by {
                    assert(idxs[a] != idxs[b]);
                    assert(e0[idxs[a]].0 == keys[a] && e0[idxs[b]].0 == keys[b]);
                }
            }
            assert forall|t: int| 0 <= t < keys.len() implies m0.dom().contains(#[trigger] keys[t])
                && report_row(rows@[t], keys[t], m0[keys[t]], current_time) by {
                old(self).lemma_node(idxs[t]);
            }
            assert forall|p: SegPath| #[trigger] m0.dom().contains(p) && swept_state(m0[p], current_time).aggregate_time
                > 0 implies keys.contains(p) by {
                let j = choose|j: int| 0 <= j < e0.len() && e0[j].0 == p;
                old(self).lemma_node(j);
                assert(swept_state(old_nodes[j].state(), current_time).aggregate_time > 0);
                let t = choose|t: int| 0 <= t < idxs.len() && idxs[t] == j;
                assert(keys[t] == p);
            }
        }
        rows
    }

    /// Sweeps every node at `current_time`.
    pub fn update_node_times(&mut self, current_time: u64)
        requires
            old(self).wf(),
        ensures
            final(self).wf(),
            final(self).name() == old(self).name(),
            final(self).view() == swept(old(self).view(), current_time),
    {
        let ghost old_nodes = self.nodes@;
        let ghost m0 = self.view();
        let mut i: usize = 0;
        proof {
            assert forall|j: int| 0 <= j < old_nodes.len() implies #[trigger] self.nodes@[j].wf() by {
                old(self).lemma_node(j);
            }
        }
        while i < self.nodes.len()
            invariant
                old_nodes == old(self).nodes@,
                self.session_name == old(self).session_name,
                self.nodes@.len() == old_nodes.len(),
                i <= old_nodes.len(),
                forall|j: int| 0 <= j < old_nodes.len() ==> #[trigger] self.nodes@[j].key() == old_nodes[j].key(),
                forall|j: int| 0 <= j < i ==> #[trigger] self.nodes@[j].state() == swept_state(old_nodes[j].state(), current_time),
                forall|j: int| i <= j < old_nodes.len() ==> #[trigger] self.nodes@[j] == old_nodes[j],
                forall|j: int| 0 <= j < old_nodes.len() ==> #[trigger] self.nodes@[j].wf(),
            decreases old_nodes.len() - i,
        {
            self.nodes[i].accumulate_all_instances(current_time);
            i = i + 1;
        }
        proof {
            let e0 = node_entries(old_nodes);
            let e1 = node_entries(self.nodes@);
            assert forall|j: int| 0 <= j < e0.len() implies #[trigger] e1[j] == (e0[j].0, swept_state(e0[j].1, current_time)) by {}
            lemma_keyed_map_values(e0, e1, |s: NodeState| swept_state(s, current_time));
            assert(self.view() =~= swept(m0, current_time));
            Self::lemma_swept_wf(m0, current_time);
        }
    }

    /// Sweeps every node at `current_time`, then persists the session, with
    /// the instances or without them.
    pub fn serialize_at(&mut self, current_time: u64, include_tabs: bool) -> (r: SerializedSession)
        requires
            old(self).wf(),
        ensures
            final(self).wf(),
            final(self).name() == old(self).name(),
            final(self).view() == swept(old(self).view(), current_time),
            r.session_name@ == old(self).name(),
            keys_distinct(record_entries(r.data@)),
            records_view(r.data@) == snapshot_of(final(self).view(), include_tabs),
    {
        self.update_node_times(current_time);
        let mut data: Vec<SerializedUrlNode> = Vec::new();
        let mut i: usize = 0;
        while i < self.nodes.len()
            invariant
                self.wf(),
                i <= self.nodes@.len(),
                data@.len() == i,
                forall|j: int| 0 <= j < i ==> #[trigger] record_entries(data@)[j] == (
                    self.nodes@[j].key(),
                    stored_state(self.nodes@[j].state(), include_tabs),
                ),
            decreases self.nodes@.len() - i,
        {
            let node = &self.nodes[i];
            let instances = if include_tabs {
                Some(copy_instances(&node.instances))
            } else {
                None
            };
            let path = prefix_of(&node.path, node.path.len());
            proof {
                assert(node.path.deep_view().take(node.path@.len() as int) =~= node.path.deep_view());
            }
            let ghost before = data@;
            let rec = SerializedUrlNode { path, aggregate_time: node.aggregate_time, instances };
            proof {
                assert(rec.path.deep_view() == self.nodes@[i as int].key());
                assert(stored_view(rec) == stored_state(self.nodes@[i as int].state(), include_tabs));
            }
            data.push(rec);
            proof {
                assert forall|j: int| 0 <= j < i + 1 implies #[trigger] record_entries(data@)[j] == (
                    self.nodes@[j].key(),
                    stored_state(self.nodes@[j].state(), include_tabs),
                ) by {
                    if j < i {
                        assert(data@[j] == before[j]);
                        assert(record_entries(before)[j] == (
                            self.nodes@[j].key(),
                            stored_state(self.nodes@[j].state(), include_tabs),
                        ));
                    } else {
                        assert(data@[j] == rec);
                    }
                }
            }
            i = i + 1;
        }
        proof {
            let e0 = node_entries(self.nodes@);
            let e1 = record_entries(data@);
            assert forall|j: int| 0 <= j < e0.len() implies #[trigger] e1[j] == (e0[j].0, stored_state(e0[j].1, include_tabs)) by {}
            lemma_keyed_map_values(e0, e1, |s: NodeState| stored_state(s, include_tabs));
        }
        SerializedSession { session_name: self.session_name.clone(), data }
    }

    /// Rebuilds a tracker from persisted records. A fresh session keeps the
    /// tree and its aggregate times and drops every instance; otherwise the
    /// instances are taken over as they were stored.
    pub fn from_serialized(session_name: String, data: Vec<SerializedUrlNode>, fresh_session: bool) -> (r: Tracker)
        ensures
            r.wf(),
            r.name() == session_name@,
            records_wf(data@) ==> r.view() == restored_tree(data@, fresh_session),
            fresh_session && records_shape_wf(data@) ==> r.view() == restored_tree(data@, fresh_session),
    {
        let mut t = Tracker::new(session_name);
        let ghost e = record_entries(data@);
        let ghost rv = records_view(data@);
        let mut i: usize = 0;
        while i < data.len()
            invariant
                e == record_entries(data@),
                rv == records_view(data@),
                t.wf(),
                t.name() == session_name@,
                i <= data@.len(),
                restorable(data@, fresh_session) ==> forall|j: int| 0 <= j < i ==> t.view().dom().contains(#[trigger] e[j].0)
                    && t.view()[e[j].0] == restored_state(e[j].1, fresh_session),
                restorable(data@, fresh_session) ==> forall|q: SegPath| #[trigger] t.view().dom().contains(q) ==> (
                    exists|j: int| 0 <= j < i && e[j].0 == q) || (exists|j: int| 0 <= j < i && is_prefix_of(q, e[j].0)),
            decreases data@.len() - i,
        {
            let rec = &data[i];
            if rec.path.len() > 0 {
                let ghost v0 = t.view();
                let idx = t.find_or_create_node(&rec.path);
                let instances = if fresh_session {
                    Vec::new()
                } else {
                    match &rec.instances {
                        Some(v) => dedup_instances(v),
                        None => Vec::new(),
                    }
                };
                let ghost before = t.nodes@;
                let ghost v1 = t.view();
                proof {
                    t.lemma_node(idx as int);
                }
                t.nodes[idx].set_state(rec.aggregate_time, instances);
                proof {
                    Self::lemma_replace_node(before, t.nodes@, idx as int);
                    if restorable(data@, fresh_session) {
                        let k = e[i as int].0;
                        assert(k == rec.path.deep_view());
                        let st = restored_state(e[i as int].1, fresh_session);
                        lemma_keyed_at(e, i as int);
                        assert(rv.dom().contains(k));
                        assert(e[i as int].1 == stored_view(data@[i as int]));
                        assert(t.nodes@[idx as int].state() =~= st);
                        assert(t.view() == v1.insert(k, st));
                        assert forall|j: int| 0 <= j < i + 1 implies t.view().dom().contains(#[trigger] e[j].0)
                            && t.view()[e[j].0] == restored_state(e[j].1, fresh_session) by {
                            if j < i {
                                assert(e[j].0 != k);
                                assert(v0.dom().contains(e[j].0));
                            }
                        }
                        assert forall|q: SegPath| #[trigger] t.view().dom().contains(q) implies (
                            exists|j: int| 0 <= j < i + 1 && e[j].0 == q) || (exists|j: int| 0 <= j < i + 1 && is_prefix_of(q, e[j].0)) by {
                            if q == k {
                                assert(e[i as int].0 == q);
                            } else if v0.dom().contains(q) {
                                if exists|j: int| 0 <= j < i && e[j].0 == q {
                                    let j = choose|j: int| 0 <= j < i && e[j].0 == q;
                                    assert(e[j].0 == q);
                                } else {
                                    let j = choose|j: int| 0 <= j < i && is_prefix_of(q, e[j].0);
                                    assert(is_prefix_of(q, e[j].0));
                                }
                            } else {
                                assert(is_prefix_of(q, e[i as int].0));
                            }
                        }
                    }
                }
            } else {
                proof {
                    if restorable(data@, fresh_session) {
                        lemma_keyed_at(e, i as int);
                        assert(rec.path.deep_view() =~= Seq::<Seq<char>>::empty());
                    }
                }
            }
            i = i + 1;
        }
        proof {
            if restorable(data@, fresh_session) {
                let target = restored_tree(data@, fresh_session);
                assert forall|q: SegPath| #[trigger] t.view().dom().contains(q) <==> target.dom().contains(q) by {
                    if t.view().dom().contains(q) {
                        if exists|j: int| 0 <= j < e.len() && e[j].0 == q {
                            let j = choose|j: int| 0 <= j < e.len() && e[j].0 == q;
                            lemma_keyed_at(e, j);
                        } else {
                            let j = choose|j: int| 0 <= j < e.len() && is_prefix_of(q, e[j].0);
                            lemma_keyed_at(e, j);
                            if q.len() < e[j].0.len() {
                                assert(rv.dom().contains(e[j].0.take(q.len() as int)));
                            } else {
                                assert(e[j].0.take(q.len() as int) =~= e[j].0);
                            }
                        }
                    }
                    if target.dom().contains(q) {
                        let j = choose|j: int| 0 <= j < e.len() && e[j].0 == q;
                        assert(t.view().dom().contains(e[j].0));
                    }
                }
                assert forall|q: SegPath| #[trigger] t.view().dom().contains(q) implies t.view()[q] == target[q] by {
                    let j = choose|j: int| 0 <= j < e.len() && e[j].0 == q;
                    lemma_keyed_at(e, j);
                }
                assert(t.view() =~= target);
            }
        }
        t
    }

    /// Focuses `tab_id` at the node of `url`, now.
    pub fn track_tab_focused(&mut self, url: &str, tab_id: u32) -> (r: Result<(), TrackerError>)
        requires
            old(self).wf(),
        ensures
            final(self).wf(),
            final(self).name() == old(self).name(),
            r is Ok <==> parsed_path(url@) is Some,
            r is Err ==> final(self).view() == old(self).view() && r->Err_0 is InvalidUrl,
            r is Ok ==> exists|now: u64| final(self).view() == focused_tree(old(self).view(), parsed_path(url@)->0, tab_id, now),
    {
        let parts = match parse_url_parts(url) {
            Ok(p) => p,
            Err(e) => {
                return Err(TrackerError::InvalidUrl(url_error_text(e, url)));
            },
        };
        let timestamp = current_timestamp();
        self.focus_tab(&parts, tab_id, timestamp);
        proof {
            assert(self.view() == focused_tree(old(self).view(), parsed_path(url@)->0, tab_id, timestamp));
        }
        Ok(())
    }

    /// Unfocuses `tab_id` at the node of `url`, now.
    pub fn track_tab_unfocused(&mut self, url: &str, tab_id: u32) -> (r: Result<(), TrackerError>)
        requires
            old(self).wf(),
        ensures
            final(self).wf(),
            final(self).name() == old(self).name(),
            r is Ok <==> (parsed_path(url@) matches Some(p) && tab_known(old(self).view(), p, tab_id)),
            r matches Err(TrackerError::InvalidUrl(_)) <==> parsed_path(url@) is None,
            r matches Err(TrackerError::TabNotFound(id)) ==> id == tab_id,
            r is Err ==> final(self).view() == old(self).view(),
            r is Ok ==> exists|now: u64| final(self).view() == unfocused_tree(old(self).view(), parsed_path(url@)->0, tab_id, now),
    {
        let parts = match parse_url_parts(url) {
            Ok(p) => p,
            Err(e) => {
                return Err(TrackerError::InvalidUrl(url_error_text(e, url)));
            },
        };
        let timestamp = current_timestamp();
        self.unfocus_tab(&parts, tab_id, timestamp)
    }

    /// Closes `tab_id` at the node of `url`, now.
    pub fn track_tab_closed(&mut self, url: &str, tab_id: u32) -> (r: Result<(), TrackerError>)
        requires
            old(self).wf(),
        ensures
            final(self).wf(),
            final(self).name() == old(self).name(),
            r is Ok <==> (parsed_path(url@) matches Some(p) && tab_known(old(self).view(), p, tab_id)),
            r matches Err(TrackerError::InvalidUrl(_)) <==> parsed_path(url@) is None,
            r matches Err(TrackerError::TabNotFound(id)) ==> id == tab_id,
            r is Err ==> final(self).view() == old(self).view(),
            r is Ok ==> exists|now: u64| final(self).view() == closed_tree(old(self).view(), parsed_path(url@)->0, tab_id, now),
    {
        let parts = match parse_url_parts(url) {
            Ok(p) => p,
            Err(e) => {
                return Err(TrackerError::InvalidUrl(url_error_text(e, url)));
            },
        };
        let timestamp = current_timestamp();
        self.close_tab(&parts, tab_id, timestamp)
    }

    /// Sweeps the tree now and reports every node that has time.
    pub fn get_tracking_data(&mut self) -> (r: Vec<TrackingData>)
        requires
            old(self).wf(),
        ensures
            final(self).wf(),
            final(self).name() == old(self).name(),
            exists|now: u64| final(self).view() == swept(old(self).view(), now) && is_report(r@, old(self).view(), now),
    {
        let current_time = current_timestamp();
        self.collect_tracking_data(current_time)
    }

    /// Sweeps the tree now and persists the session, with the instances or
    /// without them.
    pub fn serialize_session(&mut self, include_tabs: bool) -> (r: SerializedSession)
        requires
            old(self).wf(),
        ensures
            final(self).wf(),
            final(self).name() == old(self).name(),
            exists|now: u64| final(self).view() == swept(old(self).view(), now),
            r.session_name@ == old(self).name(),
            keys_distinct(record_entries(r.data@)),
            records_view(r.data@) == snapshot_of(final(self).view(), include_tabs),
    {
        let current_time = current_timestamp();
        self.serialize_at(current_time, include_tabs)
    }

    /// A well-formed tracker holds a well-formed tree.
    pub proof fn lemma_wf_tree(&self)
        requires
            self.wf(),
        ensures
            tree_wf(self.view()),
    {
    }

    /// Applies a tab event for `url` at `now`.
    pub fn apply_tab_event(&mut self, op: TabOperation, url: &str, tab_id: u32, now: u64) -> (r: Result<(), TrackerError>)
        requires
            old(self).wf(),
        ensures
            final(self).wf(),
            final(self).name() == old(self).name(),
            r matches Err(TrackerError::InvalidUrl(_)) <==> parsed_path(url@) is None,
            url@.len() == 0 ==> (r matches Err(TrackerError::InvalidUrl(s)) && s@ == "Empty URL"@),
            r matches Err(TrackerError::TabNotFound(id)) ==> id == tab_id,
            r is Err ==> final(self).view() == old(self).view(),
            r is Ok <==> (parsed_path(url@) matches Some(p) && (op == TabOperation::Focus || tab_known(old(self).view(), p, tab_id))),
            parsed_path(url@) matches Some(p) ==> final(self).view() == after_event(old(self).view(), p, tab_id, op, now),
    {
        let parts = match parse_url_parts(url) {
            Ok(p) => p,
            Err(e) => {
                return Err(TrackerError::InvalidUrl(url_error_text(e, url)));
            },
        };
        match op {
            TabOperation::Focus => {
                self.focus_tab(&parts, tab_id, now);
                Ok(())
            },
            TabOperation::Unfocus => self.unfocus_tab(&parts, tab_id, now),
            TabOperation::Close => self.close_tab(&parts, tab_id, now),
        }
    }

    /// The node with exactly this path, if the tree has one.
    pub fn node_at(&self, parts: &Vec<String>) -> (r: Option<&UrlNode>)
        requires
            self.wf(),
        ensures
            r is None <==> !self.view().dom().contains(parts.deep_view()),
            r matches Some(n) ==> n.key() == parts.deep_view() && n.state() == self.view()[parts.deep_view()],
    {
        match self.find_node(parts) {
            Some(i) => {
                proof {
                    self.lemma_node(i as int);
                }
                Some(&self.nodes[i])
            },
            None => None,
        }
    }
}

/// Whether two paths hold the same segments.
pub fn paths_equal(a: &Vec<String>, b: &Vec<String>) -> (r: bool)
    ensures
        r == (a.deep_view() == b.deep_view()),
{
    if a.len() != b.len() {
        proof {
            assert(a.deep_view().len() != b.deep_view().len());
        }
        return false;
    }
    let mut i: usize = 0;
    while i < a.len()
        invariant
            a@.len() == b@.len(),
            i <= a@.len(),
            forall|j: int| 0 <= j < i ==> a@[j]@ == b@[j]@,
        decreases a@.len() - i,
    {
        if !(a[i] == b[i]) {
            proof {
                assert(a.deep_view()[i as int] != b.deep_view()[i as int]);
            }
            return false;
        }
        i = i + 1;
    }
    proof {
        assert(a.deep_view() =~= b.deep_view());
    }
    true
}

/// The first `k` segments of a path.
pub fn prefix_of(parts: &Vec<String>, k: usize) -> (r: Vec<String>)
    requires
        k <= parts@.len(),
    ensures
        r.deep_view() == parts.deep_view().take(k as int),
{
    let mut r: Vec<String> = Vec::new();
    let mut i: usize = 0;
    while i < k
        invariant
            k <= parts@.len(),
            i <= k,
            r.deep_view() == parts.deep_view().take(i as int),
        decreases k - i,
    {
        let g = parts[i].clone();
        assert(g@ == parts@[i as int]@);
        let ghost before = r.deep_view();
        r.push(g);
        proof {
            assert(r.deep_view() =~= before.push(g@));
            assert(r.deep_view() =~= parts.deep_view().take(i as int + 1));
        }
        i = i + 1;
    }
    r
}

/// The segments of a path joined by `/`.
pub fn join_path(path: &Vec<String>) -> (r: String)
    ensures
        r@ == joined(path.deep_view()),
{
    let ghost d = path.deep_view();
    let mut r = String::new();
    let mut i: usize = 0;
    while i < path.len()
        invariant
            d == path.deep_view(),
            i <= d.len(),
            r@ == joined(d.take(i as int)),
        decreases d.len() - i,
    {
        proof {
            assert(d.take(i as int + 1).drop_last() =~= d.take(i as int));
            reveal_strlit("/");
        }
        if i > 0 {
            r.append("/");
        }
        r.append(path[i].as_str());
        proof {
            if i == 0 {
                assert(d.take(1) =~= seq![d[0]]);
                assert(r@ =~= joined(d.take(1)));
            } else {
                assert(r@ =~= joined(d.take(i as int + 1)));
            }
        }
        i = i + 1;
    }
    proof {
        assert(d.take(d.len() as int) =~= d);
    }
    r
}


/// The text of an `InvalidUrl` error.
fn url_error_text(e: UrlError, url: &str) -> (r: String)
    ensures
        e is Empty ==> r@ == "Empty URL"@,
{
    match e {
        UrlError::Empty => String::from_str("Empty URL"),
        UrlError::Unparsable(pe) => String::from_str("URL parsing error: ").concat(pe.to_string().as_str()),
        UrlError::NoParts => String::from_str("No parseable parts in URL: ").concat(url),
    }
}

impl TrackerError {
    pub open spec fn text(&self) -> Seq<char> {
        match self {
            TrackerError::InvalidUrl(s) => "Invalid URL: "@ + s@,
            TrackerError::TabNotFound(id) => "Tab "@ + crate::text::decimal(*id as nat) + " not found"@,
        }
    }

    /// The human-readable text of the error.
    pub fn message(&self) -> (r: String)
        ensures
            r@ == self.text(),
    {
        match self {
            TrackerError::InvalidUrl(s) => String::from_str("Invalid URL: ").concat(s.as_str()),
            TrackerError::TabNotFound(id) => {
                let digits = crate::text::decimal_text(*id as u64);
                String::from_str("Tab ").concat(digits.as_str()).concat(" not found")
            },
        }
    }
}

impl Default for Tracker {
    /// A tracker for the session named `default`.
    fn default() -> (r: Tracker)
        ensures
            r.wf(),
            r.name() == "default"@,
            r.view() == Map::<SegPath, NodeState>::empty(),
    {
        Tracker::new(String::from_str("default"))
    }
}

} // verus!
