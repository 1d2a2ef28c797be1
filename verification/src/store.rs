//! The session store: the broker's record of every live session, keyed by
//! session id. Each entry carries the record fields and the membership set.

use vstd::prelude::*;
use vstd::pervasive::VecAdditionalExecFns;
use crate::session::{Session, SessionView};

verus! {

/// Whether some entry is stored under the session id `id`.
pub open spec fn has_sid(s: Seq<SessionView>, id: Seq<char>) -> bool {
    exists|i: int| 0 <= i < s.len() && (#[trigger] s[i].session_id) == id
}

/// The index of the entry stored under `id` (meaningful when `has_sid` holds
/// and ids are unique).
pub open spec fn sid_index(s: Seq<SessionView>, id: Seq<char>) -> int {
    choose|i: int| 0 <= i < s.len() && (#[trigger] s[i].session_id) == id
}

/// No two entries are stored under the same session id.
pub open spec fn sids_unique(s: Seq<SessionView>) -> bool {
    forall|i: int, j: int|
        0 <= i < j < s.len() ==> (#[trigger] s[i].session_id) != (#[trigger] s[j].session_id)
}

/// Every stored session is well-formed.
pub open spec fn all_wf(s: Seq<SessionView>) -> bool {
    forall|i: int| 0 <= i < s.len() ==> (#[trigger] s[i]).wf()
}

/// The store invariant: unique ids, well-formed entries.
pub open spec fn store_inv(s: Seq<SessionView>) -> bool {
    sids_unique(s) && all_wf(s)
}

/// The store without the entry under `id`; unchanged when no such entry
/// exists.
pub open spec fn remove_sid(s: Seq<SessionView>, id: Seq<char>) -> Seq<SessionView> {
    if has_sid(s, id) {
        s.remove(sid_index(s, id))
    } else {
        s
    }
}

/// With unique ids, the entry at index `i` is the one `sid_index` picks for
/// its id.
pub proof fn lemma_sid_at(s: Seq<SessionView>, i: int)
    requires
        sids_unique(s),
        0 <= i < s.len(),
    ensures
        has_sid(s, s[i].session_id),
        sid_index(s, s[i].session_id) == i,
{
    assert(has_sid(s, s[i].session_id));
    let j = sid_index(s, s[i].session_id);
    assert(0 <= j < s.len() && s[j].session_id == s[i].session_id);
    if i < j {
        assert(false);
    } else if j < i {
        assert(false);
    }
}

/// Replacing an entry in place, keeping its session id, keeps ids unique.
pub proof fn lemma_update_keeps_sids_unique(s: Seq<SessionView>, i: int, e: SessionView)
    requires
        sids_unique(s),
        0 <= i < s.len(),
        e.session_id == s[i].session_id,
    ensures
        sids_unique(s.update(i, e)),
{
}

/// Removing the entry under `id` deletes exactly that entry: `id` is gone,
/// every other id keeps its entry, and the invariant is preserved.
pub proof fn lemma_remove_sid(s: Seq<SessionView>, id: Seq<char>)
    requires
        sids_unique(s),
    ensures
        sids_unique(remove_sid(s, id)),
        !has_sid(remove_sid(s, id), id),
        forall|k: Seq<char>| k != id ==> has_sid(remove_sid(s, id), k) == has_sid(s, k),
        forall|k: Seq<char>|
            k != id && #[trigger] has_sid(s, k) ==> remove_sid(s, id)[sid_index(
                remove_sid(s, id),
                k,
            )] == s[sid_index(s, k)],
        all_wf(s) ==> all_wf(remove_sid(s, id)),
        remove_sid(s, id).len() == if has_sid(s, id) {
            s.len() - 1
        } else {
            s.len() as int
        },
{
    if !has_sid(s, id) {
        return ;
    }
    let i = sid_index(s, id);
    assert(0 <= i < s.len() && s[i].session_id == id);
    let t = s.remove(i);
    assert forall|a: int, b: int| 0 <= a < b < t.len() implies (#[trigger] t[a].session_id) != (
    #[trigger] t[b].session_id) by {
        let a0 = if a < i {
            a
        } else {
            a + 1
        };
        let b0 = if b < i {
            b
        } else {
            b + 1
        };
        assert(t[a].session_id == s[a0].session_id && t[b].session_id == s[b0].session_id);
    }
    assert forall|k: Seq<char>| #[trigger] has_sid(t, k) implies (has_sid(s, k) && k != id) by {
        let j = choose|j: int| 0 <= j < t.len() && (#[trigger] t[j].session_id) == k;
        let j0 = if j < i {
            j
        } else {
            j + 1
        };
        assert(s[j0].session_id == k);
        if k == id {
            assert(j0 != i);
            assert(false);
        }
    }
    assert forall|k: Seq<char>| has_sid(s, k) && k != id implies #[trigger] has_sid(t, k) by {
        let j = choose|j: int| 0 <= j < s.len() && (#[trigger] s[j].session_id) == k;
        assert(j != i);
        let j1 = if j < i {
            j
        } else {
            j - 1
        };
        assert(t[j1].session_id == k);
    }
    assert forall|k: Seq<char>| k != id && #[trigger] has_sid(s, k) implies t[sid_index(t, k)]
        == s[sid_index(s, k)] by {
        let j = sid_index(s, k);
        assert(0 <= j < s.len() && s[j].session_id == k);
        assert(j != i);
        let j1 = if j < i {
            j
        } else {
            j - 1
        };
        assert(t[j1].session_id == k);
        lemma_sid_at(t, j1);
        assert(t[j1] == s[j]);
    }
    if all_wf(s) {
        assert forall|a: int| 0 <= a < t.len() implies (#[trigger] t[a]).wf() by {
            let a0 = if a < i {
                a
            } else {
                a + 1
            };
            assert(t[a] == s[a0]);
        }
    }
}

/// Law: writing a record stores it under its session id. Reading that id back
/// yields exactly the record written, every other id keeps its old record,
/// and a store of well-formed records stays well-formed when the new record
/// is well-formed.
pub proof fn lemma_store_round_trip(s: Seq<SessionView>, e: SessionView)
    requires
        sids_unique(s),
    ensures
        ({
            let t = remove_sid(s, e.session_id).push(e);
            &&& sids_unique(t)
            &&& has_sid(t, e.session_id)
            &&& t[sid_index(t, e.session_id)] == e
            &&& forall|k: Seq<char>|
                k != e.session_id ==> has_sid(t, k) == has_sid(s, k)
            &&& forall|k: Seq<char>|
                k != e.session_id && #[trigger] has_sid(s, k) ==> t[sid_index(t, k)] == s[sid_index(
                    s,
                    k,
                )]
            &&& (all_wf(s) && e.wf()) ==> all_wf(t)
        }),
{
    lemma_remove_sid(s, e.session_id);
    let r = remove_sid(s, e.session_id);
    let t = r.push(e);
    assert forall|a: int, b: int| 0 <= a < b < t.len() implies (#[trigger] t[a].session_id) != (
    #[trigger] t[b].session_id) by {
        if b == r.len() {
            assert(t[a] == r[a]);
            lemma_sid_at(r, a);
            assert(!has_sid(r, e.session_id));
        } else {
            assert(t[a] == r[a] && t[b] == r[b]);
        }
    }
    assert(t[r.len() as int].session_id == e.session_id);
    assert(has_sid(t, e.session_id));
    lemma_sid_at(t, r.len() as int);
    assert forall|k: Seq<char>| k != e.session_id implies has_sid(t, k) == has_sid(s, k) by {
        if has_sid(t, k) {
            let j = choose|j: int| 0 <= j < t.len() && (#[trigger] t[j].session_id) == k;
            assert(j != r.len());
            assert(r[j].session_id == k);
            assert(has_sid(r, k));
        }
        if has_sid(r, k) {
            let j = choose|j: int| 0 <= j < r.len() && (#[trigger] r[j].session_id) == k;
            assert(t[j].session_id == k);
        }
    }
    assert forall|k: Seq<char>| k != e.session_id && #[trigger] has_sid(s, k) implies t[sid_index(
        t,
        k,
    )] == s[sid_index(s, k)] by {
        let j = sid_index(r, k);
        assert(0 <= j < r.len() && r[j].session_id == k);
        assert(t[j].session_id == k);
        lemma_sid_at(t, j);
        assert(t[j] == r[j]);
    }
    if all_wf(s) && e.wf() {
        assert forall|a: int| 0 <= a < t.len() implies (#[trigger] t[a]).wf() by {
            if a < r.len() {
                assert(t[a] == r[a]);
            } else {
                assert(t[a] == e);
            }
        }
    }
}

/// The store of live sessions. The broker is its only mutator.
pub struct SessionStore {
    pub entries: Vec<Session>,
}

impl View for SessionStore {
    type V = Seq<SessionView>;

    open spec fn view(&self) -> Seq<SessionView> {
        self.entries@.map_values(|e: Session| e@)
    }
}

impl SessionStore {
    /// Ids unique, entries well-formed.
    pub open spec fn wf(&self) -> bool {
        store_inv(self@)
    }

    /// An empty store.
    pub fn new() -> (r: SessionStore)
        ensures
            r.wf(),
            r@ == Seq::<SessionView>::empty(),
    {
        let r = SessionStore { entries: Vec::new() };
        proof {
            assert(r@ =~= Seq::<SessionView>::empty());
        }
        r
    }

    /// The index of the entry under `id`, if one exists.
    pub fn find(&self, id: &String) -> (r: Option<usize>)
        ensures
            match r {
                Some(i) => i < self@.len() && self@[i as int].session_id == id@,
                None => !has_sid(self@, id@),
            },
    {
        let n = self.entries.len();
        let mut i: usize = 0;
        while i < n
            invariant
                n == self@.len(),
                i <= n,
                forall|k: int| 0 <= k < i ==> (#[trigger] self@[k].session_id) != id@,
            decreases n - i,
        {
            if self.entries[i].session_id == *id {
                return Some(i);
            }
            i = i + 1;
        }
        None
    }

    /// Write `entry` under its session id, replacing any entry already stored
    /// under that id.
    pub fn write(&mut self, entry: Session)
        requires
            sids_unique(old(self)@),
        ensures
            final(self)@ == remove_sid(old(self)@, entry@.session_id).push(entry@),
    {
        let ghost olds = self@;
        let ghost ev = entry@;
        match self.find(&entry.session_id) {
            Some(i) => {
                self.entries.remove(i);
                proof {
                    assert(self@ =~~= olds.remove(i as int));
                    lemma_sid_at(olds, i as int);
                    assert(olds.remove(i as int) == remove_sid(olds, ev.session_id));
                }
            },
            None => {
                proof {
                    assert(self@ == remove_sid(olds, ev.session_id));
                }
            },
        }
        let ghost mid = self@;
        self.entries.push(entry);
        proof {
            assert(self@ =~~= mid.push(ev));
        }
    }

    /// Replace the entry at index `i`.
    pub fn set_at(&mut self, i: usize, entry: Session)
        requires
            i < old(self)@.len(),
        ensures
            final(self)@ == old(self)@.update(i as int, entry@),
    {
        let ghost olds = self@;
        let ghost ev = entry@;
        self.entries.set(i, entry);
        proof {
            assert(self@ =~~= olds.update(i as int, ev));
        }
    }

    /// Remove the entry at index `i`.
    pub fn remove_at(&mut self, i: usize)
        requires
            i < old(self)@.len(),
        ensures
            final(self)@ == old(self)@.remove(i as int),
    {
        let ghost olds = self@;
        self.entries.remove(i);
        proof {
            assert(self@ =~~= olds.remove(i as int));
        }
    }
}

} // verus!
