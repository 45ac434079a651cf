//! One browser tab associated with a URL node, and the accounting of its
//! active time.

use vstd::prelude::*;

verus! {

/// A tab seen at one URL node. `last_opened` is present exactly while the
/// tab is focused; `time_active` holds milliseconds not yet folded into the
/// node's aggregate.
#[derive(Clone, Copy, Debug, PartialEq, Eq, Structural)]
pub struct TabInstance {
    pub tab_id: u32,
    pub time_active: u64,
    pub last_opened: Option<u64>,
}

impl TabInstance {
    /// Active time up to `now` that has not been folded into the node yet.
    /// A clock that went backwards contributes nothing.
    pub open spec fn pending(self, now: u64) -> u64 {
        match self.last_opened {
            Some(t) => self.time_active.saturating_add(now.saturating_sub(t)),
            None => self.time_active,
        }
    }

    /// The instance after it loses focus at `now`.
    pub open spec fn paused(self, now: u64) -> TabInstance {
        TabInstance { tab_id: self.tab_id, time_active: self.pending(now), last_opened: None }
    }

    /// The instance after it gains focus at `now`; focusing a focused tab
    /// changes nothing.
    pub open spec fn resumed(self, now: u64) -> TabInstance {
        if self.last_opened is Some {
            self
        } else {
            TabInstance { tab_id: self.tab_id, time_active: self.time_active, last_opened: Some(now) }
        }
    }

    /// The instance after its pending time was handed to the node at `now`:
    /// nothing pending, and a focused tab stays focused from `now` on.
    pub open spec fn flushed(self, now: u64) -> TabInstance {
        TabInstance {
            tab_id: self.tab_id,
            time_active: 0,
            last_opened: if self.last_opened is Some {
                Some(now)
            } else {
                None
            },
        }
    }

    pub open spec fn opened_at(tab_id: u32, now: u64) -> TabInstance {
        TabInstance { tab_id, time_active: 0, last_opened: Some(now) }
    }

    /// A freshly focused tab with no accumulated time.
    pub fn new(tab_id: u32, timestamp: u64) -> (r: TabInstance)
        ensures
            r == TabInstance::opened_at(tab_id, timestamp),
    {
        TabInstance { tab_id, time_active: 0, last_opened: Some(timestamp) }
    }

    /// Folds the time since the tab was focused into `time_active` and marks
    /// it unfocused.
    pub fn accumulate_time(&mut self, current_time: u64)
        ensures
            *final(self) == old(self).paused(current_time),
    {
        if let Some(last_opened) = self.last_opened {
            let duration = current_time.saturating_sub(last_opened);
            self.time_active = self.time_active.saturating_add(duration);
            self.last_opened = None;
        }
    }

    /// Hands out the pending time and restarts the count, keeping a focused
    /// tab focused.
    pub fn accumulate_and_reset(&mut self, relative_timestamp: u64) -> (total: u64)
        ensures
            total == old(self).pending(relative_timestamp),
            *final(self) == old(self).flushed(relative_timestamp),
    {
        if let Some(last_opened) = self.last_opened {
            let duration = relative_timestamp.saturating_sub(last_opened);
            self.last_opened = Some(relative_timestamp);
            self.time_active = self.time_active.saturating_add(duration);
        }
        let total = self.time_active;
        self.time_active = 0;
        total
    }

    pub fn is_active(&self) -> (r: bool)
        ensures
            r == (self.last_opened is Some),
    {
        self.last_opened.is_some()
    }
}

/// No two instances of one node share a tab id.
pub open spec fn tab_ids_unique(s: Seq<TabInstance>) -> bool {
    forall|i: int, j: int| 0 <= i < s.len() && 0 <= j < s.len() && i != j ==> s[i].tab_id != s[j].tab_id
}

pub open spec fn has_tab(s: Seq<TabInstance>, tab_id: u32) -> bool {
    exists|i: int| 0 <= i < s.len() && s[i].tab_id == tab_id
}

/// Where the instance of `tab_id` stands, when there is one.
pub open spec fn tab_index(s: Seq<TabInstance>, tab_id: u32) -> int {
    choose|i: int| 0 <= i < s.len() && s[i].tab_id == tab_id
}

/// The instances after `tab_id` gains focus at `now`: an existing instance is
/// resumed, otherwise a new one is added.
pub open spec fn focus_tabs(s: Seq<TabInstance>, tab_id: u32, now: u64) -> Seq<TabInstance> {
    if has_tab(s, tab_id) {
        s.update(tab_index(s, tab_id), s[tab_index(s, tab_id)].resumed(now))
    } else {
        s.push(TabInstance::opened_at(tab_id, now))
    }
}

/// Saturating sum of the pending time of every instance, at `now`.
pub open spec fn pending_total(s: Seq<TabInstance>, now: u64) -> u64
    decreases s.len(),
{
    if s.len() == 0 {
        0
    } else {
        pending_total(s.drop_last(), now).saturating_add(s.last().pending(now))
    }
}

/// How many instances are focused.
pub open spec fn active_count(s: Seq<TabInstance>) -> nat
    decreases s.len(),
{
    if s.len() == 0 {
        0
    } else {
        active_count(s.drop_last()) + if s.last().last_opened is Some {
            1nat
        } else {
            0nat
        }
    }
}

pub proof fn lemma_tab_index(s: Seq<TabInstance>, tab_id: u32, i: int)
    requires
        tab_ids_unique(s),
        0 <= i < s.len(),
        s[i].tab_id == tab_id,
    ensures
        has_tab(s, tab_id),
        tab_index(s, tab_id) == i,
{
    assert(has_tab(s, tab_id));
}

pub proof fn lemma_active_count_bound(s: Seq<TabInstance>)
    ensures
        active_count(s) <= s.len(),
    decreases s.len(),
{
    if s.len() > 0 {
        lemma_active_count_bound(s.drop_last());
    }
}

/// A copy of a list of instances.
pub fn copy_instances(v: &Vec<TabInstance>) -> (r: Vec<TabInstance>)
    ensures
        r@ == v@,
{
    let mut r: Vec<TabInstance> = Vec::new();
    let mut i: usize = 0;
    while i < v.len()
        invariant
            i <= v@.len(),
            r@ == v@.take(i as int),
        decreases v@.len() - i,
    {
        r.push(v[i]);
        proof {
            assert(r@ =~= v@.take(i as int + 1));
        }
        i = i + 1;
    }
    proof {
        assert(v@.take(v@.len() as int) =~= v@);
    }
    r
}

/// Whether some instance in `v` belongs to `tab_id`.
pub fn contains_tab(v: &Vec<TabInstance>, tab_id: u32) -> (r: bool)
    ensures
        r == has_tab(v@, tab_id),
{
    let mut i: usize = 0;
    while i < v.len()
        invariant
            i <= v@.len(),
            forall|j: int| 0 <= j < i ==> v@[j].tab_id != tab_id,
        decreases v@.len() - i,
    {
        if v[i].tab_id == tab_id {
            return true;
        }
        i = i + 1;
    }
    false
}

/// The instances with the later ones of a repeated tab left out; a list
/// without repeats comes back unchanged.
pub fn dedup_instances(v: &Vec<TabInstance>) -> (r: Vec<TabInstance>)
    ensures
        tab_ids_unique(r@),
        tab_ids_unique(v@) ==> r@ == v@,
{
    let mut r: Vec<TabInstance> = Vec::new();
    let mut i: usize = 0;
    while i < v.len()
        invariant
            i <= v@.len(),
            tab_ids_unique(r@),
            tab_ids_unique(v@) ==> r@ == v@.take(i as int),
        decreases v@.len() - i,
    {
        let inst = v[i];
        if !contains_tab(&r, inst.tab_id) {
            let ghost before = r@;
            r.push(inst);
            proof {
                assert forall|a: int, b: int| 0 <= a < r@.len() && 0 <= b < r@.len() && a != b implies r@[a].tab_id
                    != r@[b].tab_id by {
                    if a < before.len() && b < before.len() {
                        assert(r@[a] == before[a] && r@[b] == before[b]);
                    } else if a < before.len() {
                        assert(r@[a] == before[a]);
                    } else {
                        assert(r@[b] == before[b]);
                    }
                }
                if tab_ids_unique(v@) {
                    assert(r@ =~= v@.take(i as int + 1));
                }
            }
        } else {
            proof {
                if tab_ids_unique(v@) {
                    let j = choose|j: int| 0 <= j < r@.len() && r@[j].tab_id == inst.tab_id;
                    assert(r@[j] == v@[j]);
                    assert(false);
                }
            }
        }
        i = i + 1;
    }
    proof {
        assert(v@.take(v@.len() as int) =~= v@);
    }
    r
}

} // verus!
