//! The connection registry: the process-local map from live connection
//! identity to that connection's outbound delivery queue.
//!
//! The queue models the ordered, single-consumer delivery path from broker
//! logic to the transport: broker operations enqueue events without blocking,
//! and the transport side drains them with [`ConnectionRegistry::take_pending`].
//! Delivery to an unregistered identity is a silent miss, never an error.

use vstd::prelude::*;
use vstd::pervasive::VecAdditionalExecFns;
use crate::events::{EventView, PushEvent};

verus! {

/// One live connection: its identity and its pending outbound events.
pub struct Connection {
    /// The connection's identity.
    pub id: String,
    /// Events enqueued for the connection, oldest first.
    pub queue: Vec<PushEvent>,
}

/// The mathematical value of a registry entry.
#[verifier::ext_equal]
pub ghost struct ConnView {
    pub id: Seq<char>,
    pub queue: Seq<EventView>,
}

impl View for Connection {
    type V = ConnView;

    open spec fn view(&self) -> ConnView {
        ConnView { id: self.id@, queue: self.queue.deep_view() }
    }
}

/// Whether some entry carries the identity `id`.
pub open spec fn reg_has(s: Seq<ConnView>, id: Seq<char>) -> bool {
    exists|i: int| 0 <= i < s.len() && (#[trigger] s[i].id) == id
}

/// The index of the entry carrying `id` (meaningful when `reg_has` holds and
/// identities are unique).
pub open spec fn reg_index(s: Seq<ConnView>, id: Seq<char>) -> int {
    choose|i: int| 0 <= i < s.len() && (#[trigger] s[i].id) == id
}

/// No two entries carry the same identity.
pub open spec fn reg_unique(s: Seq<ConnView>) -> bool {
    forall|i: int, j: int|
        0 <= i < j < s.len() ==> (#[trigger] s[i].id) != (#[trigger] s[j].id)
}

/// The registry as a map from connection identity to pending outbound events.
pub open spec fn queues_of(s: Seq<ConnView>) -> Map<Seq<char>, Seq<EventView>> {
    Map::new(|id: Seq<char>| reg_has(s, id), |id: Seq<char>| s[reg_index(s, id)].queue)
}

/// With unique identities, the entry at index `i` is the one `reg_index`
/// picks for its identity, and the map reads back its queue.
pub proof fn lemma_entry_at(s: Seq<ConnView>, i: int)
    requires
        reg_unique(s),
        0 <= i < s.len(),
    ensures
        reg_has(s, s[i].id),
        reg_index(s, s[i].id) == i,
        queues_of(s)[s[i].id] == s[i].queue,
{
    assert(reg_has(s, s[i].id));
    let j = reg_index(s, s[i].id);
    assert(0 <= j < s.len() && s[j].id == s[i].id);
    if i < j {
        assert(false);
    } else if j < i {
        assert(false);
    }
}

/// The registry of live connections. All lookups and mutations go through the
/// methods here; callers are expected to serialize access (one exclusive lock
/// around the registry), so each method is one atomic step.
pub struct ConnectionRegistry {
    pub connections: Vec<Connection>,
}

impl View for ConnectionRegistry {
    type V = Seq<ConnView>;

    open spec fn view(&self) -> Seq<ConnView> {
        self.connections@.map_values(|c: Connection| c@)
    }
}

impl ConnectionRegistry {
    /// Identities are unique, so the map view loses nothing.
    pub open spec fn wf(&self) -> bool {
        reg_unique(self@)
    }

    /// The registry as a map from identity to pending events.
    pub open spec fn queues(&self) -> Map<Seq<char>, Seq<EventView>> {
        queues_of(self@)
    }

    /// An empty registry.
    pub fn new() -> (r: ConnectionRegistry)
        ensures
            r.wf(),
            r.queues() == Map::<Seq<char>, Seq<EventView>>::empty(),
    {
        let r = ConnectionRegistry { connections: Vec::new() };
        proof {
            assert(r.queues() =~= Map::<Seq<char>, Seq<EventView>>::empty());
        }
        r
    }

    /// The index of the entry for `id`, if one exists.
    fn find(&self, id: &String) -> (r: Option<usize>)
        ensures
            match r {
                Some(i) => i < self@.len() && self@[i as int].id == id@,
                None => !reg_has(self@, id@),
            },
    {
        let n = self.connections.len();
        let mut i: usize = 0;
        while i < n
            invariant
                n == self@.len(),
                i <= n,
                forall|k: int| 0 <= k < i ==> (#[trigger] self@[k].id) != id@,
            decreases n - i,
        {
            if self.connections[i].id == *id {
                return Some(i);
            }
            i = i + 1;
        }
        None
    }

    /// Whether `id` is currently registered.
    pub fn is_registered(&self, id: &String) -> (r: bool)
        ensures
            r == self.queues().contains_key(id@),
    {
        self.find(id).is_some()
    }

    /// Register `id`, inserting an entry with an empty queue or replacing the
    /// entry (and dropping its queue) if `id` was already registered.
    pub fn register(&mut self, id: String)
        requires
            old(self).wf(),
        ensures
            final(self).wf(),
            final(self).queues() == old(self).queues().insert(
                id@,
                Seq::<EventView>::empty(),
            ),
    {
        let ghost olds = self@;
        let entry = Connection { id, queue: Vec::new() };
        let ghost eview = ConnView { id: entry.id@, queue: Seq::empty() };
        match self.find(&entry.id) {
            Some(i) => {
                self.connections.set(i, entry);
                proof {
                    assert(self@ =~~= olds.update(i as int, eview));
                    lemma_update_keeps_unique(olds, i as int, eview);
                    lemma_queues_update(olds, i as int, eview);
                }
            },
            None => {
                self.connections.push(entry);
                proof {
                    assert(self@ =~~= olds.push(eview));
                    lemma_push_keeps_unique(olds, eview);
                    lemma_queues_push(olds, eview);
                }
            },
        }
    }

    /// Unregister `id`, removing its entry and pending queue; removing an
    /// absent identity is not an error.
    pub fn unregister(&mut self, id: &String)
        requires
            old(self).wf(),
        ensures
            final(self).wf(),
            final(self).queues() == old(self).queues().remove(id@),
    {
        let ghost olds = self@;
        match self.find(id) {
            Some(i) => {
                self.connections.remove(i);
                proof {
                    assert(self@ =~= olds.remove(i as int));
                    lemma_queues_remove(olds, i as int);
                }
            },
            None => {
                proof {
                    assert(!queues_of(olds).contains_key(id@));
                    assert(self.queues() =~= old(self).queues().remove(id@));
                }
            },
        }
    }

    /// Attempt delivery of `ev` to `id`: enqueue it if a live entry exists,
    /// and report whether one was found. A missing registration is an
    /// expected outcome, not an error.
    pub fn send(&mut self, id: &String, ev: PushEvent) -> (delivered: bool)
        requires
            old(self).wf(),
        ensures
            final(self).wf(),
            delivered == old(self).queues().contains_key(id@),
            delivered ==> final(self).queues() == old(self).queues().insert(
                id@,
                old(self).queues()[id@].push(ev@),
            ),
            !delivered ==> *final(self) == *old(self),
    {
        let ghost olds = self@;
        match self.find(id) {
            Some(i) => {
                proof {
                    lemma_entry_at(olds, i as int);
                }
                self.connections[i].queue.push(ev);
                proof {
                    let updated = ConnView {
                        id: olds[i as int].id,
                        queue: olds[i as int].queue.push(ev@),
                    };
                    assert(self@ =~~= olds.update(i as int, updated));
                    lemma_update_keeps_unique(olds, i as int, updated);
                    lemma_queues_update(olds, i as int, updated);
                }
                true
            },
            None => false,
        }
    }

    /// Take every pending event for `id`, oldest first, leaving its queue
    /// empty; an absent identity yields no events.
    pub fn take_pending(&mut self, id: &String) -> (q: Vec<PushEvent>)
        requires
            old(self).wf(),
        ensures
            final(self).wf(),
            old(self).queues().contains_key(id@) ==> {
                &&& q.deep_view() == old(self).queues()[id@]
                &&& final(self).queues() == old(self).queues().insert(
                    id@,
                    Seq::<EventView>::empty(),
                )
            },
            !old(self).queues().contains_key(id@) ==> q@.len() == 0 && *final(self) == *old(self),
    {
        let ghost olds = self@;
        match self.find(id) {
            Some(i) => {
                proof {
                    lemma_entry_at(olds, i as int);
                }
                let mut q: Vec<PushEvent> = Vec::new();
                core::mem::swap(&mut q, &mut self.connections[i].queue);
                proof {
                    let updated = ConnView { id: olds[i as int].id, queue: Seq::empty() };
                    assert(q.deep_view() =~= olds[i as int].queue);
                    assert(self@ =~~= olds.update(i as int, updated));
                    lemma_update_keeps_unique(olds, i as int, updated);
                    lemma_queues_update(olds, i as int, updated);
                }
                q
            },
            None => Vec::new(),
        }
    }
}

/// Updating an entry in place with the same identity keeps identities unique.
proof fn lemma_update_keeps_unique(s: Seq<ConnView>, i: int, c: ConnView)
    requires
        reg_unique(s),
        0 <= i < s.len(),
        c.id == s[i].id,
    ensures
        reg_unique(s.update(i, c)),
{
}

/// Updating the entry at `i` (keeping its identity) rewrites exactly that
/// identity's queue in the map view.
proof fn lemma_queues_update(s: Seq<ConnView>, i: int, c: ConnView)
    requires
        reg_unique(s),
        0 <= i < s.len(),
        c.id == s[i].id,
    ensures
        queues_of(s.update(i, c)) == queues_of(s).insert(c.id, c.queue),
{
    let t = s.update(i, c);
    lemma_update_keeps_unique(s, i, c);
    assert forall|k: Seq<char>| reg_has(t, k) == (reg_has(s, k) || k == c.id) by {
        if reg_has(t, k) {
            let j = choose|j: int| 0 <= j < t.len() && (#[trigger] t[j].id) == k;
            if j == i {
                assert(k == c.id);
            } else {
                assert(s[j].id == k);
            }
        }
        if reg_has(s, k) {
            let j = choose|j: int| 0 <= j < s.len() && (#[trigger] s[j].id) == k;
            if j == i {
                assert(t[i].id == c.id && c.id == k);
            } else {
                assert(t[j].id == k);
            }
        }
        if k == c.id {
            assert(t[i].id == k);
        }
    }
    assert forall|k: Seq<char>| #[trigger] queues_of(t).contains_key(k) implies queues_of(
        t,
    )[k] == queues_of(s).insert(c.id, c.queue)[k] by {
        let j = reg_index(t, k);
        assert(0 <= j < t.len() && t[j].id == k);
        lemma_entry_at(t, j);
        if k == c.id {
            lemma_entry_at(t, i);
            assert(j == i);
        } else {
            assert(s[j].id == k);
            lemma_entry_at(s, j);
            assert(queues_of(s)[k] == s[j].queue);
            assert(t[j].queue == s[j].queue);
        }
    }
    assert(queues_of(t) =~= queues_of(s).insert(c.id, c.queue));
}

/// Appending an entry with a fresh identity keeps identities unique.
proof fn lemma_push_keeps_unique(s: Seq<ConnView>, c: ConnView)
    requires
        reg_unique(s),
        !reg_has(s, c.id),
    ensures
        reg_unique(s.push(c)),
{
    let t = s.push(c);
    assert forall|i: int, j: int| 0 <= i < j < t.len() implies (#[trigger] t[i].id) != (
    #[trigger] t[j].id) by {
        if j == s.len() {
            assert(t[i].id == s[i].id);
            assert(!reg_has(s, c.id));
            assert(reg_has(s, s[i].id));
        } else {
            assert(t[i].id == s[i].id && t[j].id == s[j].id);
        }
    }
}

/// Appending an entry with a fresh identity inserts its queue in the map view.
proof fn lemma_queues_push(s: Seq<ConnView>, c: ConnView)
    requires
        reg_unique(s),
        !reg_has(s, c.id),
    ensures
        queues_of(s.push(c)) == queues_of(s).insert(c.id, c.queue),
{
    let t = s.push(c);
    lemma_push_keeps_unique(s, c);
    assert forall|k: Seq<char>| reg_has(t, k) == (reg_has(s, k) || k == c.id) by {
        if reg_has(t, k) {
            let j = choose|j: int| 0 <= j < t.len() && (#[trigger] t[j].id) == k;
            if j == s.len() {
                assert(k == c.id);
            } else {
                assert(s[j].id == k);
            }
        }
        if reg_has(s, k) {
            let j = choose|j: int| 0 <= j < s.len() && (#[trigger] s[j].id) == k;
            assert(t[j].id == k);
        }
        if k == c.id {
            assert(t[s.len() as int].id == k);
        }
    }
    assert forall|k: Seq<char>| #[trigger] queues_of(t).contains_key(k) implies queues_of(
        t,
    )[k] == queues_of(s).insert(c.id, c.queue)[k] by {
        let j = reg_index(t, k);
        assert(0 <= j < t.len() && t[j].id == k);
        lemma_entry_at(t, j);
        if k == c.id {
            lemma_entry_at(t, s.len() as int);
            assert(j == s.len());
        } else {
            assert(j < s.len());
            assert(s[j].id == k);
            lemma_entry_at(s, j);
            assert(t[j].queue == s[j].queue);
        }
    }
    assert(queues_of(t) =~= queues_of(s).insert(c.id, c.queue));
}

/// Removing the entry at `i` removes exactly its identity from the map view.
proof fn lemma_queues_remove(s: Seq<ConnView>, i: int)
    requires
        reg_unique(s),
        0 <= i < s.len(),
    ensures
        reg_unique(s.remove(i)),
        queues_of(s.remove(i)) == queues_of(s).remove(s[i].id),
{
    let t = s.remove(i);
    assert forall|a: int, b: int| 0 <= a < b < t.len() implies (#[trigger] t[a].id) != (
    #[trigger] t[b].id) by {
        let a0 = if a < i {
            a
        } else {
            a + 1
        };
        let b0 = if b < i {
            b
        } else {
            b + 1
        };
        assert(t[a].id == s[a0].id && t[b].id == s[b0].id);
    }
    assert forall|k: Seq<char>| reg_has(t, k) == (reg_has(s, k) && k != s[i].id) by {
        if reg_has(t, k) {
            let j = choose|j: int| 0 <= j < t.len() && (#[trigger] t[j].id) == k;
            let j0 = if j < i {
                j
            } else {
                j + 1
            };
            assert(s[j0].id == k);
            if k == s[i].id {
                assert(j0 != i);
                assert(false);
            }
        }
        if reg_has(s, k) && k != s[i].id {
            let j = choose|j: int| 0 <= j < s.len() && (#[trigger] s[j].id) == k;
            assert(j != i);
            let j1 = if j < i {
                j
            } else {
                j - 1
            };
            assert(t[j1].id == k);
        }
    }
    assert forall|k: Seq<char>| #[trigger] queues_of(t).contains_key(k) implies queues_of(
        t,
    )[k] == queues_of(s).remove(s[i].id)[k] by {
        let j = reg_index(t, k);
        assert(0 <= j < t.len() && t[j].id == k);
        lemma_entry_at(t, j);
        let j0 = if j < i {
            j
        } else {
            j + 1
        };
        assert(s[j0].id == k);
        lemma_entry_at(s, j0);
        assert(t[j].queue == s[j0].queue);
    }
    assert(queues_of(t) =~= queues_of(s).remove(s[i].id));
}

} // verus!
