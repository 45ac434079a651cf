//! What holds across several operations of the tracker.

use vstd::prelude::*;
use crate::model::{SegPath, keys_distinct, keyed};
use crate::nested::{SessionNode, forest_records};
use crate::node::NodeState;
use crate::tab::{TabInstance, tab_ids_unique, has_tab, tab_index, focus_tabs};
use crate::tracker::{
    Tracker, SerializedUrlNode, TabOperation, tree_wf, with_path, focused_tree, closed_tree,
    tab_known, after_event,
    record_entries, records_view, records_wf, snapshot_of, restored_tree, stored_state,
};
use crate::tab::lemma_tab_index;

verus! {

/// Restoring a full snapshot as the same session gives back the tree as
/// the snapshot left it: the same nodes, aggregate times and instances.
pub proof fn lemma_restore_full_snapshot(t: Tracker, data: Seq<SerializedUrlNode>)
    requires
        t.wf(),
        keys_distinct(record_entries(data)),
        records_view(data) == snapshot_of(t.view(), true),
    ensures
        records_wf(data),
        restored_tree(data, false) == t.view(),
{
    t.lemma_wf_tree();
    let m = t.view();
    let rv = records_view(data);
    assert(rv.dom() =~= m.dom());
    assert forall|p: SegPath, k: int| rv.dom().contains(p) && 0 < k < p.len() implies #[trigger] rv.dom().contains(
        #[trigger] p.take(k)) by {
        assert(m.dom().contains(p.take(k)));
    }
    assert forall|p: SegPath| #[trigger] rv.dom().contains(p) implies (rv[p].instances matches Some(
        s,
    ) ==> tab_ids_unique(s)) by {
        assert(rv[p] == stored_state(m[p], true));
    }
    let r = restored_tree(data, false);
    assert forall|p: SegPath| #[trigger] r.dom().contains(p) implies r[p] == m[p] by {
        assert(rv[p] == stored_state(m[p], true));
    }
    assert(r =~= m);
}

/// Restoring a snapshot as a fresh session keeps every node and its
/// aggregate time and leaves no instance anywhere. Restoring a snapshot
/// taken without instances gives the same tree, fresh or not.
pub proof fn lemma_restore_fresh(t: Tracker, data: Seq<SerializedUrlNode>, include_tabs: bool)
    requires
        t.wf(),
        keys_distinct(record_entries(data)),
        records_view(data) == snapshot_of(t.view(), include_tabs),
    ensures
        records_wf(data),
        restored_tree(data, true).dom() == t.view().dom(),
        forall|p: SegPath| #[trigger] restored_tree(data, true).dom().contains(p) ==> restored_tree(data, true)[p]
            == (NodeState { aggregate_time: t.view()[p].aggregate_time, instances: Seq::empty() }),
        !include_tabs ==> restored_tree(data, false) == restored_tree(data, true),
{
    t.lemma_wf_tree();
    let m = t.view();
    let rv = records_view(data);
    assert(rv.dom() =~= m.dom());
    assert forall|p: SegPath, k: int| rv.dom().contains(p) && 0 < k < p.len() implies #[trigger] rv.dom().contains(
        #[trigger] p.take(k)) by {
        assert(m.dom().contains(p.take(k)));
    }
    assert forall|p: SegPath| #[trigger] rv.dom().contains(p) implies (rv[p].instances matches Some(
        s,
    ) ==> tab_ids_unique(s)) by {
        assert(rv[p] == stored_state(m[p], include_tabs));
    }
    let r = restored_tree(data, true);
    assert(r.dom() =~= m.dom());
    assert forall|p: SegPath| #[trigger] r.dom().contains(p) implies r[p] == (NodeState {
        aggregate_time: m[p].aggregate_time,
        instances: Seq::empty(),
    }) by {
        assert(rv[p] == stored_state(m[p], include_tabs));
    }
    if !include_tabs {
        let r2 = restored_tree(data, false);
        assert forall|p: SegPath| #[trigger] r2.dom().contains(p) implies r2[p] == r[p] by {
            assert(rv[p] == stored_state(m[p], include_tabs));
        }
        assert(r2 =~= r);
    }
}

/// After a tab gains focus at a node, that node knows the tab, so that
/// unfocusing or closing it there succeeds.
pub proof fn lemma_focus_makes_known(m: Map<SegPath, NodeState>, p: SegPath, tab_id: u32, now: u64)
    requires
        p.len() > 0,
    ensures
        tab_known(focused_tree(m, p, tab_id, now), p, tab_id),
{
    let w = with_path(m, p);
    assert(p.take(p.len() as int) =~= p);
    assert(w.dom().contains(p));
    let s = w[p].instances;
    let f = focus_tabs(s, tab_id, now);
    if has_tab(s, tab_id) {
        let i = tab_index(s, tab_id);
        assert(f[i].tab_id == tab_id);
    } else {
        assert(f[s.len() as int].tab_id == tab_id);
    }
}

/// The tree after a sequence of timed events on `tab_id` at `p`.
pub open spec fn after_events(m: Map<SegPath, NodeState>, p: SegPath, tab_id: u32, evs: Seq<(TabOperation, u64)>) -> Map<
    SegPath,
    NodeState,
>
    decreases evs.len(),
{
    if evs.len() == 0 {
        m
    } else {
        after_event(after_events(m, p, tab_id, evs.drop_last()), p, tab_id, evs.last().0, evs.last().1)
    }
}

/// The focused intervals of a sequence of timed events on one tab: since
/// when the tab is focused, if it is, and the total length of the intervals
/// that an unfocus or a close has ended.
pub open spec fn focus_intervals(evs: Seq<(TabOperation, u64)>) -> (Option<u64>, nat)
    decreases evs.len(),
{
    if evs.len() == 0 {
        (None, 0)
    } else {
        let prev = focus_intervals(evs.drop_last());
        let t = evs.last().1;
        match evs.last().0 {
            TabOperation::Focus => if prev.0 is Some {
                prev
            } else {
                (Some(t), prev.1)
            },
            _ => match prev.0 {
                Some(s) => (None, prev.1 + (t - s) as nat),
                None => (None, prev.1),
            },
        }
    }
}

/// The aggregate time of `p` before any event, zero when the node is not
/// there yet.
pub open spec fn base_time(m: Map<SegPath, NodeState>, p: SegPath) -> u64 {
    if m.dom().contains(p) {
        m[p].aggregate_time
    } else {
        0
    }
}

/// A sequence of events that a tab can see at one node from its first focus
/// to its close, with times that never go back.
pub open spec fn tab_lifetime(evs: Seq<(TabOperation, u64)>) -> bool {
    &&& evs.len() > 0
    &&& evs[0].0 == TabOperation::Focus
    &&& evs.last().0 == TabOperation::Close
    &&& forall|i: int| 0 <= i < evs.len() - 1 ==> #[trigger] evs[i].0 != TabOperation::Close
    &&& forall|i: int, j: int| 0 <= i <= j < evs.len() ==> #[trigger] evs[i].1 <= #[trigger] evs[j].1
}

proof fn lemma_intervals_mono(evs: Seq<(TabOperation, u64)>, k: int)
    requires
        0 <= k <= evs.len(),
    ensures
        focus_intervals(evs.take(k)).1 <= focus_intervals(evs).1,
    decreases evs.len() - k,
{
    if k == evs.len() {
        assert(evs.take(k) =~= evs);
    } else {
        assert(evs.take(k + 1).drop_last() =~= evs.take(k));
        lemma_intervals_mono(evs, k + 1);
    }
}

/// While the tab lives, its node keeps the base aggregate and its instance
/// carries the intervals ended so far and the start of the open one.
proof fn lemma_lifetime_prefix(m: Map<SegPath, NodeState>, p: SegPath, tab_id: u32, evs: Seq<(TabOperation, u64)>, k: int)
    requires
        tree_wf(m),
        p.len() > 0,
        !tab_known(m, p, tab_id),
        tab_lifetime(evs),
        base_time(m, p) + focus_intervals(evs).1 <= u64::MAX,
        1 <= k < evs.len(),
    ensures
        ({
            let mk = after_events(m, p, tab_id, evs.take(k));
            let fi = focus_intervals(evs.take(k));
            let s = mk[p].instances;
            &&& mk.dom().contains(p)
            &&& mk[p].aggregate_time == base_time(m, p)
            &&& tab_ids_unique(s)
            &&& has_tab(s, tab_id)
            &&& s[tab_index(s, tab_id)] == (TabInstance { tab_id, time_active: fi.1 as u64, last_opened: fi.0 })
            &&& fi.0 matches Some(t0) ==> exists|j: int| 0 <= j < k && t0 == evs[j].1
        }),
    decreases k,
{
    let prefix = evs.take(k);
    assert(prefix.drop_last() =~= evs.take(k - 1));
    assert(prefix.last() == evs[k - 1]);
    let t = evs[k - 1].1;
    let fi = focus_intervals(prefix);
    lemma_intervals_mono(evs, k);
    if k == 1 {
        assert(evs.take(0) =~= Seq::<(TabOperation, u64)>::empty());
        let w = with_path(m, p);
        assert(p.take(p.len() as int) =~= p);
        assert(w.dom().contains(p));
        let s0 = w[p].instances;
        if m.dom().contains(p) {
            assert(tab_ids_unique(m[p].instances));
        } else {
            assert(s0 =~= Seq::<TabInstance>::empty());
        }
        assert(!has_tab(s0, tab_id));
        let s1 = s0.push(TabInstance::opened_at(tab_id, t));
        assert(tab_ids_unique(s1)) by {
            assert forall|a: int, b: int| 0 <= a < s1.len() && 0 <= b < s1.len() && a != b implies s1[a].tab_id
                != s1[b].tab_id by {
                if a < s0.len() && b < s0.len() {
                    assert(s1[a] == s0[a] && s1[b] == s0[b]);
                } else if a < s0.len() {
                    assert(s1[a] == s0[a]);
                } else {
                    assert(s1[b] == s0[b]);
                }
            }
        }
        lemma_tab_index(s1, tab_id, s0.len() as int);
    } else {
        lemma_lifetime_prefix(m, p, tab_id, evs, k - 1);
        let prev = after_events(m, p, tab_id, evs.take(k - 1));
        let pf = focus_intervals(evs.take(k - 1));
        let s = prev[p].instances;
        let i = tab_index(s, tab_id);
        assert(tab_known(prev, p, tab_id));
        let op = evs[k - 1].0;
        assert(op != TabOperation::Close);
        if let Some(t0) = pf.0 {
            let j = choose|j: int| 0 <= j < k - 1 && t0 == evs[j].1;
            assert(evs[j].1 <= evs[k - 1].1);
        }
        if op == TabOperation::Focus {
            assert(prev.dom().contains(p));
            assert(with_path(prev, p).dom().contains(p));
            assert(with_path(prev, p)[p] == prev[p]);
            let s1 = s.update(i, s[i].resumed(t));
            assert(tab_ids_unique(s1)) by {
                assert forall|a: int, b: int| 0 <= a < s1.len() && 0 <= b < s1.len() && a != b implies s1[a].tab_id
                    != s1[b].tab_id by {
                    assert(s1[a].tab_id == s[a].tab_id && s1[b].tab_id == s[b].tab_id);
                }
            }
            lemma_tab_index(s1, tab_id, i);
            if pf.0 is None {
                assert(fi.0 == Some(t));
            }
        } else {
            let s1 = s.update(i, s[i].paused(t));
            assert(tab_ids_unique(s1)) by {
                assert forall|a: int, b: int| 0 <= a < s1.len() && 0 <= b < s1.len() && a != b implies s1[a].tab_id
                    != s1[b].tab_id by {
                    assert(s1[a].tab_id == s[a].tab_id && s1[b].tab_id == s[b].tab_id);
                }
            }
            lemma_tab_index(s1, tab_id, i);
        }
    }
}

/// Closing a tab adds to its node exactly the total length of the intervals
/// in which it was focused, however many focus and unfocus events came
/// between its first focus and its close, and the tab leaves the node.
/// Stated where the sum does not saturate.
pub proof fn lemma_close_accounts_focus_time(
    m: Map<SegPath, NodeState>,
    p: SegPath,
    tab_id: u32,
    evs: Seq<(TabOperation, u64)>,
)
    requires
        tree_wf(m),
        p.len() > 0,
        !tab_known(m, p, tab_id),
        tab_lifetime(evs),
        base_time(m, p) + focus_intervals(evs).1 <= u64::MAX,
    ensures
        after_events(m, p, tab_id, evs).dom().contains(p),
        after_events(m, p, tab_id, evs)[p].aggregate_time == base_time(m, p) + focus_intervals(evs).1,
        !has_tab(after_events(m, p, tab_id, evs)[p].instances, tab_id),
{
    let n = evs.len() as int;
    assert(evs.take(n) =~= evs);
    assert(evs.drop_last() =~= evs.take(n - 1));
    if n == 1 {
        assert(false);
    }
    lemma_lifetime_prefix(m, p, tab_id, evs, n - 1);
    let prev = after_events(m, p, tab_id, evs.take(n - 1));
    let pf = focus_intervals(evs.take(n - 1));
    let s = prev[p].instances;
    let i = tab_index(s, tab_id);
    let t = evs[n - 1].1;
    if let Some(t0) = pf.0 {
        let j = choose|j: int| 0 <= j < n - 1 && t0 == evs[j].1;
        assert(evs[j].1 <= evs[n - 1].1);
    }
    let s1 = s.remove(i);
    if has_tab(s1, tab_id) {
        let a = choose|a: int| 0 <= a < s1.len() && s1[a].tab_id == tab_id;
        if a < i {
            assert(s1[a] == s[a]);
        } else {
            assert(s1[a] == s[a + 1]);
        }
    }
}

/// What is saved in the file's shape and read back stands for the same
/// tree: nesting records and flattening the result again keeps every path
/// with its aggregate time and instances, and the records stay well formed.
pub proof fn lemma_file_shape_round_trip(
    saved: Seq<SerializedUrlNode>,
    nested: Seq<SessionNode>,
    loaded: Seq<SerializedUrlNode>,
)
    requires
        records_wf(saved),
        keys_distinct(forest_records(nested, Seq::empty())),
        keyed(forest_records(nested, Seq::empty())) == records_view(saved),
        record_entries(loaded) == forest_records(nested, Seq::empty()),
    ensures
        records_wf(loaded),
        records_view(loaded) == records_view(saved),
        restored_tree(loaded, false) == restored_tree(saved, false),
{
}

/// One event, on any tab at any node, other than closing `tab_id` at `p`,
/// leaves `tab_id` known at `p`.
pub proof fn lemma_known_tab_stays(
    m: Map<SegPath, NodeState>,
    p: SegPath,
    tab_id: u32,
    q: SegPath,
    other: u32,
    op: TabOperation,
    now: u64,
)
    requires
        tab_known(m, p, tab_id),
        !(op == TabOperation::Close && q == p && other == tab_id),
    ensures
        tab_known(after_event(m, q, other, op, now), p, tab_id),
{
    let s = m[p].instances;
    let j = choose|j: int| 0 <= j < s.len() && s[j].tab_id == tab_id;
    let r = after_event(m, q, other, op, now);
    match op {
        TabOperation::Focus => {
            let w = with_path(m, q);
            assert(w.dom().contains(p) && w[p] == m[p]);
            if q == p {
                let f = focus_tabs(s, other, now);
                if has_tab(s, other) {
                    assert(f[j].tab_id == tab_id);
                } else {
                    assert(f[j] == s[j]);
                }
                assert(r[p].instances == f);
            }
        },
        TabOperation::Unfocus => {
            if tab_known(m, q, other) && q == p {
                let i = tab_index(s, other);
                assert(r[p].instances[j].tab_id == tab_id);
            }
        },
        TabOperation::Close => {
            if tab_known(m, q, other) && q == p {
                let i = tab_index(s, other);
                let t = s.remove(i);
                assert(i != j);
                if j < i {
                    assert(t[j] == s[j]);
                } else {
                    assert(t[j - 1] == s[j]);
                }
                assert(r[p].instances == t);
            }
        },
    }
}

/// The tree after a sequence of events, each on its own node and tab.
pub open spec fn tree_after(m: Map<SegPath, NodeState>, evs: Seq<(SegPath, u32, TabOperation, u64)>) -> Map<
    SegPath,
    NodeState,
>
    decreases evs.len(),
{
    if evs.len() == 0 {
        m
    } else {
        let e = evs.last();
        after_event(tree_after(m, evs.drop_last()), e.0, e.1, e.2, e.3)
    }
}

/// Once `tab_id` gained focus at `p`, unfocusing or closing it there
/// succeeds after any events that did not close it there.
pub proof fn lemma_focused_tab_stays_known(
    m: Map<SegPath, NodeState>,
    p: SegPath,
    tab_id: u32,
    now: u64,
    evs: Seq<(SegPath, u32, TabOperation, u64)>,
)
    requires
        p.len() > 0,
        forall|i: int| 0 <= i < evs.len() ==> !(#[trigger] evs[i].2 == TabOperation::Close && evs[i].0 == p
            && evs[i].1 == tab_id),
    ensures
        tab_known(tree_after(focused_tree(m, p, tab_id, now), evs), p, tab_id),
    decreases evs.len(),
{
    if evs.len() == 0 {
        lemma_focus_makes_known(m, p, tab_id, now);
    } else {
        let d = evs.drop_last();
        assert forall|i: int| 0 <= i < d.len() implies !(#[trigger] d[i].2 == TabOperation::Close && d[i].0 == p
            && d[i].1 == tab_id) by {
            assert(d[i] == evs[i]);
        }
        lemma_focused_tab_stays_known(m, p, tab_id, now, d);
        let e = evs.last();
        assert(e == evs[evs.len() - 1]);
        lemma_known_tab_stays(tree_after(focused_tree(m, p, tab_id, now), d), p, tab_id, e.0, e.1, e.2, e.3);
    }
}

/// Closing a tab that a node knows, where no tab is there twice, leaves the
/// node without it, so that closing it again fails.
pub proof fn lemma_close_forgets_tab(m: Map<SegPath, NodeState>, p: SegPath, tab_id: u32, now: u64)
    requires
        tab_known(m, p, tab_id),
        tab_ids_unique(m[p].instances),
    ensures
        !tab_known(closed_tree(m, p, tab_id, now), p, tab_id),
{
    let s = m[p].instances;
    let i = tab_index(s, tab_id);
    let t = s.remove(i);
    assert(closed_tree(m, p, tab_id, now)[p].instances == t);
    if has_tab(t, tab_id) {
        let a = choose|a: int| 0 <= a < t.len() && t[a].tab_id == tab_id;
        if a < i {
            assert(t[a] == s[a]);
        } else {
            assert(t[a] == s[a + 1]);
        }
    }
}

} // verus!
