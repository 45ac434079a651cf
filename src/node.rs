//! One node of the URL tree: the time attributed to it and the tabs at it.

use vstd::prelude::*;
use crate::tab::{
    TabInstance, tab_ids_unique, has_tab, tab_index, focus_tabs, pending_total, active_count,
    lemma_tab_index, lemma_active_count_bound,
};

verus! {

/// What a node holds, apart from where it stands.
pub struct NodeState {
    pub aggregate_time: u64,
    pub instances: Seq<TabInstance>,
}

/// A node of the URL tree, addressed by its full path of segments from the
/// root; its own label (`sub_part`) is the last segment.
pub struct UrlNode {
    pub path: Vec<String>,
    pub aggregate_time: u64,
    pub instances: Vec<TabInstance>,
}

impl UrlNode {
    pub open spec fn key(&self) -> Seq<Seq<char>> {
        self.path.deep_view()
    }

    pub open spec fn state(&self) -> NodeState {
        NodeState { aggregate_time: self.aggregate_time, instances: self.instances@ }
    }

    pub open spec fn wf(&self) -> bool {
        tab_ids_unique(self.instances@)
    }

    /// A node with no time and no tabs.
    pub fn new(path: Vec<String>) -> (r: UrlNode)
        ensures
            r.path@ == path@,
            r.aggregate_time == 0,
            r.instances@.len() == 0,
            r.wf(),
    {
        UrlNode { path, aggregate_time: 0, instances: Vec::new() }
    }

    /// The segment that labels this node.
    pub fn sub_part(&self) -> (r: &String)
        requires
            self.path@.len() > 0,
        ensures
            r@ == self.key().last(),
    {
        &self.path[self.path.len() - 1]
    }

    /// Position of the instance of `tab_id`, if the node has one.
    pub fn find_tab_instance(&self, tab_id: u32) -> (r: Option<usize>)
        requires
            self.wf(),
        ensures
            r is None <==> !has_tab(self.instances@, tab_id),
            r matches Some(i) ==> i == tab_index(self.instances@, tab_id) && i
                < self.instances@.len(),
    {
        let mut i: usize = 0;
        while i < self.instances.len()
            invariant
                self.wf(),
                i <= self.instances@.len(),
                forall|j: int| 0 <= j < i ==> self.instances@[j].tab_id != tab_id,
            decreases self.instances@.len() - i,
        {
            if self.instances[i].tab_id == tab_id {
                proof {
                    lemma_tab_index(self.instances@, tab_id, i as int);
                }
                return Some(i);
            }
            i = i + 1;
        }
        None
    }

    /// Takes the instance of `tab_id` out of the node.
    pub fn remove_tab_instance(&mut self, tab_id: u32) -> (r: Option<TabInstance>)
        requires
            old(self).wf(),
        ensures
            final(self).wf(),
            final(self).path == old(self).path,
            final(self).aggregate_time == old(self).aggregate_time,
            r is None <==> !has_tab(old(self).instances@, tab_id),
            r is None ==> final(self).instances@ == old(self).instances@,
            r matches Some(x) ==> {
                let i = tab_index(old(self).instances@, tab_id);
                &&& x == old(self).instances@[i]
                &&& final(self).instances@ == old(self).instances@.remove(i)
            },
    {
        match self.find_tab_instance(tab_id) {
            Some(pos) => {
                let x = self.instances.remove(pos);
                proof {
                    let s = old(self).instances@;
                    let t = self.instances@;
                    assert forall|a: int, b: int|
                        0 <= a < t.len() && 0 <= b < t.len() && a != b implies t[a].tab_id
                        != t[b].tab_id by {
                        let a2 = if a < pos { a } else { a + 1 };
                        let b2 = if b < pos { b } else { b + 1 };
                        assert(t[a] == s[a2] && t[b] == s[b2]);
                    }
                }
                Some(x)
            },
            None => None,
        }
    }

    /// Focuses `tab_id` at `timestamp`, creating its instance if needed.
    pub fn add_tab_instance(&mut self, tab_id: u32, timestamp: u64)
        requires
            old(self).wf(),
        ensures
            final(self).wf(),
            final(self).path == old(self).path,
            final(self).aggregate_time == old(self).aggregate_time,
            final(self).instances@ == focus_tabs(old(self).instances@, tab_id, timestamp),
    {
        match self.find_tab_instance(tab_id) {
            Some(pos) => {
                let mut inst = self.instances[pos];
                if inst.last_opened.is_none() {
                    inst.last_opened = Some(timestamp);
                    self.instances.set(pos, inst);
                }
                proof {
                    let s = old(self).instances@;
                    assert(self.instances@ =~= s.update(pos as int, s[pos as int].resumed(timestamp)));
                }
            },
            None => {
                self.instances.push(TabInstance::new(tab_id, timestamp));
                proof {
                    let s = old(self).instances@;
                    let t = self.instances@;
                    assert forall|a: int, b: int|
                        0 <= a < t.len() && 0 <= b < t.len() && a != b implies t[a].tab_id
                        != t[b].tab_id by {
                        if a < s.len() && b < s.len() {
                            assert(t[a] == s[a] && t[b] == s[b]);
                        } else if a < s.len() {
                            assert(t[a] == s[a]);
                        } else {
                            assert(t[b] == s[b]);
                        }
                    }
                }
            },
        }
    }

    /// Unfocuses `tab_id` at `now`; false when the node has no such tab.
    pub fn unfocus_tab_instance(&mut self, tab_id: u32, now: u64) -> (found: bool)
        requires
            old(self).wf(),
        ensures
            final(self).wf(),
            final(self).path == old(self).path,
            final(self).aggregate_time == old(self).aggregate_time,
            found == has_tab(old(self).instances@, tab_id),
            found ==> {
                let s = old(self).instances@;
                let i = tab_index(s, tab_id);
                final(self).instances@ == s.update(i, s[i].paused(now))
            },
            !found ==> final(self).instances@ == old(self).instances@,
    {
        match self.find_tab_instance(tab_id) {
            Some(pos) => {
                let mut inst = self.instances[pos];
                inst.accumulate_time(now);
                self.instances.set(pos, inst);
                proof {
                    let s = old(self).instances@;
                    let t = self.instances@;
                    assert forall|a: int, b: int|
                        0 <= a < t.len() && 0 <= b < t.len() && a != b implies t[a].tab_id
                        != t[b].tab_id by {
                        assert(t[a].tab_id == s[a].tab_id && t[b].tab_id == s[b].tab_id);
                    }
                }
                true
            },
            None => false,
        }
    }

    /// Closes `tab_id` at `now`: its instance leaves the node and its time,
    /// pending time included, joins the node's aggregate. False when the node
    /// has no such tab.
    pub fn close_tab_instance(&mut self, tab_id: u32, now: u64) -> (found: bool)
        requires
            old(self).wf(),
        ensures
            final(self).wf(),
            final(self).path == old(self).path,
            found == has_tab(old(self).instances@, tab_id),
            found ==> {
                let s = old(self).instances@;
                let i = tab_index(s, tab_id);
                &&& final(self).instances@ == s.remove(i)
                &&& final(self).aggregate_time == old(self).aggregate_time.saturating_add(
                    s[i].pending(now),
                )
            },
            !found ==> final(self).instances@ == old(self).instances@ && final(self).aggregate_time
                == old(self).aggregate_time,
    {
        match self.remove_tab_instance(tab_id) {
            Some(inst) => {
                let mut inst = inst;
                inst.accumulate_time(now);
                self.aggregate_time = self.aggregate_time.saturating_add(inst.time_active);
                true
            },
            None => false,
        }
    }

    /// Replaces what the node holds, keeping its path.
    pub fn set_state(&mut self, aggregate_time: u64, instances: Vec<TabInstance>)
        requires
            tab_ids_unique(instances@),
        ensures
            final(self).wf(),
            final(self).path == old(self).path,
            final(self).aggregate_time == aggregate_time,
            final(self).instances@ == instances@,
    {
        self.aggregate_time = aggregate_time;
        self.instances = instances;
    }

    /// Hands the pending time of every instance to the node at
    /// `current_time`. Returns the new aggregate, the number of focused
    /// instances and the number of instances.
    pub fn accumulate_all_instances(&mut self, current_time: u64) -> (r: (u64, usize, usize))
        requires
            old(self).wf(),
        ensures
            final(self).wf(),
            final(self).path == old(self).path,
            final(self).aggregate_time == old(self).aggregate_time.saturating_add(
                pending_total(old(self).instances@, current_time),
            ),
            final(self).instances@ == old(self).instances@.map_values(
                |t: TabInstance| t.flushed(current_time),
            ),
            r.0 == final(self).aggregate_time,
            r.1 == active_count(old(self).instances@),
            r.2 == old(self).instances@.len(),
    {
        let ghost s = self.instances@;
        let mut total_time: u64 = 0;
        let mut active: usize = 0;
        let mut i: usize = 0;
        while i < self.instances.len()
            invariant
                self.path == old(self).path,
                self.aggregate_time == old(self).aggregate_time,
                s == old(self).instances@,
                self.instances@.len() == s.len(),
                i <= s.len(),
                forall|j: int| 0 <= j < i ==> self.instances@[j] == s[j].flushed(current_time),
                forall|j: int| i <= j < s.len() ==> self.instances@[j] == s[j],
                total_time == pending_total(s.take(i as int), current_time),
                active == active_count(s.take(i as int)),
            decreases s.len() - i,
        {
            proof {
                assert(s.take(i as int + 1).drop_last() =~= s.take(i as int));
                lemma_active_count_bound(s.take(i as int));
            }
            let mut inst = self.instances[i];
            if inst.is_active() {
                active = active + 1;
            }
            let t = inst.accumulate_and_reset(current_time);
            total_time = total_time.saturating_add(t);
            self.instances.set(i, inst);
            i = i + 1;
        }
        proof {
            assert(s.take(s.len() as int) =~= s);
            assert(self.instances@ =~= s.map_values(|t: TabInstance| t.flushed(current_time)));
            let f = self.instances@;
            assert forall|a: int, b: int|
                0 <= a < f.len() && 0 <= b < f.len() && a != b implies f[a].tab_id
                != f[b].tab_id by {
                assert(f[a].tab_id == s[a].tab_id && f[b].tab_id == s[b].tab_id);
            }
        }
        self.aggregate_time = self.aggregate_time.saturating_add(total_time);
        (self.aggregate_time, active, self.instances.len())
    }
}

} // verus!
