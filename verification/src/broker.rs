//! The session lifecycle manager: a coordinator over the session store and
//! the connection registry. Each operation mutates the store and fans push
//! events out to the registered connections.

use vstd::prelude::*;
use crate::errors::{class_of, BrokerError, ErrorClass};
use crate::events::{summary_of, EventView, PushEvent, SessionSummary};
use crate::ids::fresh_id;
use crate::registry::ConnectionRegistry;
use crate::session::{Session, SessionState, SessionView};
use crate::store::{
    all_wf, has_sid, lemma_sid_at, lemma_store_round_trip, remove_sid, sid_index, sids_unique,
    store_inv, SessionStore,
};

verus! {

/// The persistent record store's verdict on a scenario reference: the record
/// found (with its display name), no record under that reference, or a
/// malformed reference.
pub enum ScenarioLookup {
    Found { name: String },
    NotFound,
    InvalidRef,
}

/// A freshly created session: idle, owned by `player1`, with `player1` as the
/// only member.
pub open spec fn new_idle_session(
    session_id: Seq<char>,
    scenario_id: Seq<char>,
    scenario_name: Seq<char>,
    player1: Seq<char>,
) -> SessionView {
    SessionView {
        session_id: session_id,
        scenario_id: scenario_id,
        scenario_name: scenario_name,
        state: SessionState::Idle,
        player1: player1,
        player2: None,
        members: seq![player1],
    }
}

/// The session `e` after `player2` joins: progressing, both slots filled,
/// both players members.
pub open spec fn joined(e: SessionView, player2: Seq<char>) -> SessionView {
    SessionView {
        session_id: e.session_id,
        scenario_id: e.scenario_id,
        scenario_name: e.scenario_name,
        state: SessionState::Progressing,
        player1: e.player1,
        player2: Some(player2),
        members: e.members.push(player2),
    }
}

/// Whether `m` is the member left behind in session `e` when `c` departs.
pub open spec fn is_survivor(e: SessionView, c: Seq<char>, m: Seq<char>) -> bool {
    e.members.contains(c) && e.members.contains(m) && m != c
}

/// The reason string reported when a player's disconnect ends a game.
pub open spec fn disconnect_reason(c: Seq<char>) -> Seq<char> {
    "Player "@ + c + " disconnected"@
}

/// The store after every session `c` belongs to is deleted; the rest keep
/// their order.
pub open spec fn drop_member_sessions(s: Seq<SessionView>, c: Seq<char>) -> Seq<SessionView>
    decreases s.len(),
{
    if s.len() == 0 {
        Seq::empty()
    } else {
        let rest = drop_member_sessions(s.drop_last(), c);
        if s.last().members.contains(c) {
            rest
        } else {
            rest.push(s.last())
        }
    }
}

/// The game-ended notifications `m` receives when `c` disconnects: one per
/// stored session both belong to, in store order, naming `m` the winner.
pub open spec fn survivor_events(s: Seq<SessionView>, c: Seq<char>, m: Seq<char>) -> Seq<EventView>
    decreases s.len(),
{
    if s.len() == 0 {
        Seq::empty()
    } else {
        let rest = survivor_events(s.drop_last(), c, m);
        if is_survivor(s.last(), c, m) {
            rest.push(
                EventView::GameEnded {
                    session_id: s.last().session_id,
                    winner_id: m,
                    reason: disconnect_reason(c),
                },
            )
        } else {
            rest
        }
    }
}

/// How many of `members` are keys of the registry map `reg`.
pub open spec fn count_registered(
    members: Seq<Seq<char>>,
    reg: Map<Seq<char>, Seq<EventView>>,
) -> int
    decreases members.len(),
{
    if members.len() == 0 {
        0
    } else {
        count_registered(members.drop_last(), reg) + if reg.contains_key(members.last()) {
            1int
        } else {
            0int
        }
    }
}

/// The session broker: the session store and the connection registry, with
/// the lifecycle operations over both. Callers serialize access (one
/// exclusive lock around the broker), so each operation is one atomic step.
pub struct Broker {
    pub store: SessionStore,
    pub registry: ConnectionRegistry,
}

/// Clone a membership vector.
fn clone_members(v: &Vec<String>) -> (r: Vec<String>)
    ensures
        r.deep_view() == v.deep_view(),
{
    let mut r: Vec<String> = Vec::new();
    let n = v.len();
    let mut i: usize = 0;
    while i < n
        invariant
            n == v.len(),
            i <= n,
            r@.len() == i,
            forall|k: int| 0 <= k < i ==> r.deep_view()[k] == v.deep_view()[k],
        decreases n - i,
    {
        r.push(v[i].clone());
        i = i + 1;
    }
    proof {
        assert(r.deep_view() =~= v.deep_view());
    }
    r
}

/// Whether `x` occurs in `v`.
fn members_contain(v: &Vec<String>, x: &String) -> (r: bool)
    ensures
        r == v.deep_view().contains(x@),
{
    let n = v.len();
    let mut i: usize = 0;
    while i < n
        invariant
            n == v.len(),
            i <= n,
            forall|k: int| 0 <= k < i ==> v.deep_view()[k] != x@,
        decreases n - i,
    {
        if v[i] == *x {
            proof {
                assert(v.deep_view()[i as int] == x@);
            }
            return true;
        }
        i = i + 1;
    }
    proof {
        if v.deep_view().contains(x@) {
            let k = choose|k: int| 0 <= k < v.deep_view().len() && v.deep_view()[k] == x@;
            assert(false);
        }
    }
    false
}

/// Project one stored session into its summary.
fn summarize(e: &Session) -> (r: SessionSummary)
    ensures
        r@ == summary_of(e@),
{
    SessionSummary {
        session_id: e.session_id.clone(),
        scenario_id: e.scenario_id.clone(),
        scenario_name: e.scenario_name.clone(),
        state: e.state,
        player1: e.player1.clone(),
        player2: match &e.player2 {
            Some(p) => Some(p.clone()),
            None => None,
        },
    }
}

impl Broker {
    /// The stored sessions, in store order.
    pub open spec fn sessions(&self) -> Seq<SessionView> {
        self.store@
    }

    /// The registry as a map from connection identity to pending events.
    pub open spec fn queues(&self) -> Map<Seq<char>, Seq<EventView>> {
        self.registry.queues()
    }

    /// Both stores well-formed.
    pub open spec fn wf(&self) -> bool {
        store_inv(self.sessions()) && self.registry.wf()
    }

    /// A broker with no sessions and no connections.
    pub fn new() -> (r: Broker)
        ensures
            r.wf(),
            r.sessions() == Seq::<SessionView>::empty(),
            r.queues() == Map::<Seq<char>, Seq<EventView>>::empty(),
    {
        Broker { store: SessionStore::new(), registry: ConnectionRegistry::new() }
    }

    /// Read one session as a summary; fails when no record exists under the
    /// id. No side effects.
    pub fn get_session(&self, session_id: &String) -> (r: Result<SessionSummary, BrokerError>)
        requires
            self.wf(),
        ensures
            !has_sid(self.sessions(), session_id@) ==> r == Err::<SessionSummary, BrokerError>(
                BrokerError::SessionNotFound,
            ),
            has_sid(self.sessions(), session_id@) ==> (r matches Ok(sum) && sum@ == summary_of(
                self.sessions()[sid_index(self.sessions(), session_id@)],
            )),
    {
        match self.store.find(session_id) {
            None => Err(BrokerError::SessionNotFound),
            Some(i) => {
                proof {
                    lemma_sid_at(self.sessions(), i as int);
                }
                Ok(summarize(&self.store.entries[i]))
            },
        }
    }

    /// Read every stored session as a summary, in store order. No side
    /// effects.
    pub fn list_sessions(&self) -> (r: Vec<SessionSummary>)
        ensures
            r.deep_view() == self.sessions().map_values(|e: SessionView| summary_of(e)),
    {
        let mut out: Vec<SessionSummary> = Vec::new();
        let n = self.store.entries.len();
        let mut i: usize = 0;
        while i < n
            invariant
                n == self.sessions().len(),
                i <= n,
                out@.len() == i,
                forall|k: int| 0 <= k < i ==> out.deep_view()[k] == summary_of(
                    #[trigger] self.sessions()[k],
                ),
            decreases n - i,
        {
            let s = summarize(&self.store.entries[i]);
            out.push(s);
            i = i + 1;
        }
        proof {
            assert(out.deep_view() =~= self.sessions().map_values(
                |e: SessionView| summary_of(e),
            ));
        }
        out
    }

    /// Create a session against the record store's verdict on the scenario
    /// reference. On success a fresh session id is allocated and an idle
    /// record owned by `requester` is written under it, with `requester` as
    /// the only member; no notification is sent. A malformed reference or a
    /// missing scenario is rejected without touching any state.
    pub fn create_session(
        &mut self,
        scenario_id: String,
        requester: String,
        scenario: ScenarioLookup,
    ) -> (r: Result<String, BrokerError>)
        requires
            old(self).wf(),
        ensures
            final(self).wf(),
            final(self).queues() == old(self).queues(),
            final(self).registry == old(self).registry,
            match scenario {
                ScenarioLookup::InvalidRef => r == Err::<String, BrokerError>(
                    BrokerError::InvalidReference,
                ) && final(self).sessions() == old(self).sessions(),
                ScenarioLookup::NotFound => r == Err::<String, BrokerError>(
                    BrokerError::ScenarioNotFound,
                ) && final(self).sessions() == old(self).sessions(),
                ScenarioLookup::Found { name } => r matches Ok(sid) && sid@.len() == 36
                    && final(self).sessions() == remove_sid(old(self).sessions(), sid@).push(
                    new_idle_session(sid@, scenario_id@, name@, requester@),
                ),
            },
    {
        match scenario {
            ScenarioLookup::InvalidRef => Err(BrokerError::InvalidReference),
            ScenarioLookup::NotFound => Err(BrokerError::ScenarioNotFound),
            ScenarioLookup::Found { name } => {
                let sid = fresh_id();
                let mut members: Vec<String> = Vec::new();
                members.push(requester.clone());
                let entry = Session {
                    session_id: sid.clone(),
                    scenario_id,
                    scenario_name: name,
                    state: SessionState::Idle,
                    player1: requester,
                    player2: None,
                    members,
                };
                proof {
                    assert(entry@ =~~= new_idle_session(sid@, scenario_id@, name@, requester@));
                    assert(entry@.wf());
                }
                let ghost olds = self.sessions();
                self.store.write(entry);
                proof {
                    lemma_store_round_trip(olds, new_idle_session(sid@, scenario_id@, name@, requester@));
                }
                Ok(sid)
            },
        }
    }

    /// Join `requester` into the session under `session_id`. Fails when no
    /// record exists, when both player slots are already occupied, or when
    /// the requester already owns the session. On success player 2 and the
    /// state are set together, the requester becomes a member, and a
    /// session-ready event is delivered to player 1's connection if one is
    /// registered (a missing registration is not an error). A session already
    /// progressing is rejected with a conflict and never mutated.
    pub fn join_session(&mut self, session_id: &String, requester: String) -> (r: Result<
        (),
        BrokerError,
    >)
        requires
            old(self).wf(),
        ensures
            final(self).wf(),
            !has_sid(old(self).sessions(), session_id@) ==> r == Err::<(), BrokerError>(
                BrokerError::SessionNotFound,
            ) && final(self).sessions() == old(self).sessions() && final(self).queues()
                == old(self).queues(),
            has_sid(old(self).sessions(), session_id@) ==> ({
                let e = old(self).sessions()[sid_index(old(self).sessions(), session_id@)];
                &&& (e.player2 is Some ==> r == Err::<(), BrokerError>(BrokerError::SessionFull)
                    && final(self).sessions() == old(self).sessions() && final(self).queues()
                    == old(self).queues())
                &&& (e.player2 is None && e.player1 == requester@ ==> r == Err::<(), BrokerError>(
                    BrokerError::SessionNotJoinable,
                ) && final(self).sessions() == old(self).sessions() && final(self).queues()
                    == old(self).queues())
                &&& (e.player2 is None && e.player1 != requester@ ==> {
                    &&& r == Ok::<(), BrokerError>(())
                    &&& final(self).sessions() == old(self).sessions().update(
                        sid_index(old(self).sessions(), session_id@),
                        joined(e, requester@),
                    )
                    &&& (old(self).queues().contains_key(e.player1) ==> final(self).queues()
                        == old(self).queues().insert(
                        e.player1,
                        old(self).queues()[e.player1].push(
                            EventView::SessionReady {
                                session_id: session_id@,
                                player2: requester@,
                            },
                        ),
                    ))
                    &&& (!old(self).queues().contains_key(e.player1) ==> final(self).queues()
                        == old(self).queues())
                })
            }),
            (has_sid(old(self).sessions(), session_id@) && old(self).sessions()[sid_index(
                old(self).sessions(),
                session_id@,
            )].state == SessionState::Progressing) ==> (r matches Err(err) && class_of(err)
                == ErrorClass::Conflict && final(self).sessions() == old(self).sessions()
                && final(self).queues() == old(self).queues()),
    {
        let i = match self.store.find(session_id) {
            None => {
                return Err(BrokerError::SessionNotFound);
            },
            Some(i) => i,
        };
        proof {
            lemma_sid_at(self.sessions(), i as int);
        }
        let ghost e = self.sessions()[i as int];
        proof {
            assert(e.wf());
        }
        if self.store.entries[i].player2.is_some() {
            return Err(BrokerError::SessionFull);
        }
        if self.store.entries[i].player1 == requester {
            return Err(BrokerError::SessionNotJoinable);
        }
        let entry_ref = &self.store.entries[i];
        let p1 = entry_ref.player1.clone();
        let mut members = clone_members(&entry_ref.members);
        members.push(requester.clone());
        let new_entry = Session {
            session_id: entry_ref.session_id.clone(),
            scenario_id: entry_ref.scenario_id.clone(),
            scenario_name: entry_ref.scenario_name.clone(),
            state: SessionState::Progressing,
            player1: entry_ref.player1.clone(),
            player2: Some(requester.clone()),
            members,
        };
        proof {
            assert(new_entry@ =~~= joined(e, requester@));
            assert(e.members.push(requester@) =~= seq![e.player1, requester@]);
            assert(joined(e, requester@).wf());
        }
        let ghost olds = self.sessions();
        self.store.set_at(i, new_entry);
        proof {
            crate::store::lemma_update_keeps_sids_unique(olds, i as int, joined(e, requester@));
            assert forall|a: int| 0 <= a < self.sessions().len() implies (
            #[trigger] self.sessions()[a]).wf() by {
                if a != i {
                    assert(self.sessions()[a] == olds[a]);
                }
            }
        }
        let ev = PushEvent::SessionReady { session_id: session_id.clone(), player2: requester };
        let _ = self.registry.send(&p1, ev);
        Ok(())
    }

    /// Broadcast a game-started event to every member of the session whose
    /// connection is registered; members without a live registration are
    /// skipped without error. The session record is not touched, and the
    /// count of notified connections is the operation's only observable
    /// result. An absent session notifies nobody.
    pub fn start_game(&mut self, session_id: &String) -> (count: usize)
        requires
            old(self).wf(),
        ensures
            final(self).wf(),
            final(self).sessions() == old(self).sessions(),
            final(self).queues().dom() == old(self).queues().dom(),
            !has_sid(old(self).sessions(), session_id@) ==> count == 0 && final(self).queues()
                == old(self).queues(),
            has_sid(old(self).sessions(), session_id@) ==> ({
                let e = old(self).sessions()[sid_index(old(self).sessions(), session_id@)];
                &&& count == count_registered(e.members, old(self).queues())
                &&& forall|cid: Seq<char>| #[trigger] old(self).queues().contains_key(cid)
                    ==> final(self).queues()[cid] == if e.members.contains(cid) {
                        old(self).queues()[cid].push(
                            EventView::GameStarted { session_id: session_id@ },
                        )
                    } else {
                        old(self).queues()[cid]
                    }
            }),
    {
        let i = match self.store.find(session_id) {
            None => {
                return 0;
            },
            Some(i) => i,
        };
        proof {
            lemma_sid_at(self.sessions(), i as int);
        }
        let ghost e = self.sessions()[i as int];
        proof {
            assert(e.wf());
            assert(forall|a: int, b: int|
                0 <= a < b < e.members.len() ==> e.members[a] != e.members[b]);
        }
        let members = clone_members(&self.store.entries[i].members);
        let ghost s0 = self.store;
        let ghost oldq = self.queues();
        let n = members.len();
        let mut count: usize = 0;
        let mut k: usize = 0;
        while k < n
            invariant
                n == members@.len(),
                k <= n,
                members.deep_view() == e.members,
                forall|a: int, b: int|
                    0 <= a < b < e.members.len() ==> e.members[a] != e.members[b],
                self.store == s0,
                self.registry.wf(),
                count == count_registered(e.members.take(k as int), oldq),
                count <= k,
                self.queues().dom() == oldq.dom(),
                forall|cid: Seq<char>| #[trigger] oldq.contains_key(cid) ==> self.queues()[cid]
                    == if e.members.take(k as int).contains(cid) {
                        oldq[cid].push(EventView::GameStarted { session_id: session_id@ })
                    } else {
                        oldq[cid]
                    },
            decreases n - k,
        {
            let ghost preq = self.queues();
            let ghost cid0 = e.members[k as int];
            let ev = PushEvent::GameStarted { session_id: session_id.clone() };
            let delivered = self.registry.send(&members[k], ev);
            if delivered {
                count = count + 1;
            }
            proof {
                assert(members.deep_view()[k as int] == cid0);
                let taken = e.members.take(k + 1);
                assert(taken.drop_last() =~= e.members.take(k as int));
                assert(taken.last() == cid0);
                assert(!e.members.take(k as int).contains(cid0)) by {
                    if e.members.take(k as int).contains(cid0) {
                        let a = choose|a: int|
                            0 <= a < k && #[trigger] e.members.take(k as int)[a] == cid0;
                        assert(e.members[a] == e.members[k as int]);
                    }
                }
                assert(delivered == oldq.contains_key(cid0));
                assert forall|cid: Seq<char>| #[trigger] oldq.contains_key(cid)
                    implies self.queues()[cid] == if taken.contains(cid) {
                    oldq[cid].push(EventView::GameStarted { session_id: session_id@ })
                } else {
                    oldq[cid]
                } by {
                    if cid == cid0 {
                        assert(taken[k as int] == cid0);
                        assert(taken.contains(cid0));
                        assert(preq[cid0] == oldq[cid0]);
                    } else {
                        assert(self.queues()[cid] == preq[cid]);
                        assert(taken.contains(cid) == e.members.take(k as int).contains(cid)) by {
                            if taken.contains(cid) {
                                let a = choose|a: int|
                                    0 <= a < taken.len() && #[trigger] taken[a] == cid;
                                assert(a < k);
                                assert(e.members.take(k as int)[a] == cid);
                            }
                            if e.members.take(k as int).contains(cid) {
                                let a = choose|a: int|
                                    0 <= a < k && #[trigger] e.members.take(k as int)[a] == cid;
                                assert(taken[a] == cid);
                            }
                        }
                    }
                }
            }
            k = k + 1;
        }
        proof {
            assert(e.members.take(n as int) =~= e.members);
        }
        count
    }

    /// Close the session under `session_id`: broadcast a game-ended event,
    /// with no winner and the supplied reason, to every member whose
    /// connection is registered, then delete the record and its membership
    /// set. Closing an absent session is not an error and changes nothing.
    pub fn close_session(&mut self, session_id: &String, reason: String)
        requires
            old(self).wf(),
        ensures
            final(self).wf(),
            final(self).sessions() == remove_sid(old(self).sessions(), session_id@),
            final(self).queues().dom() == old(self).queues().dom(),
            !has_sid(old(self).sessions(), session_id@) ==> final(self).queues()
                == old(self).queues(),
            has_sid(old(self).sessions(), session_id@) ==> ({
                let e = old(self).sessions()[sid_index(old(self).sessions(), session_id@)];
                forall|cid: Seq<char>| #[trigger] old(self).queues().contains_key(cid)
                    ==> final(self).queues()[cid] == if e.members.contains(cid) {
                    old(self).queues()[cid].push(
                        EventView::GameEnded {
                            session_id: session_id@,
                            winner_id: Seq::empty(),
                            reason: reason@,
                        },
                    )
                } else {
                    old(self).queues()[cid]
                }
            }),
    {
        let i = match self.store.find(session_id) {
            None => {
                proof {
                    assert(remove_sid(old(self).sessions(), session_id@) == old(self).sessions());
                }
                return ;
            },
            Some(i) => i,
        };
        proof {
            lemma_sid_at(self.sessions(), i as int);
        }
        let ghost e = self.sessions()[i as int];
        proof {
            assert(e.wf());
            assert(forall|a: int, b: int|
                0 <= a < b < e.members.len() ==> e.members[a] != e.members[b]);
        }
        let members = clone_members(&self.store.entries[i].members);
        let ghost olds = self.sessions();
        let ghost oldq = self.queues();
        let n = members.len();
        let mut k: usize = 0;
        while k < n
            invariant
                n == members@.len(),
                k <= n,
                members.deep_view() == e.members,
                forall|a: int, b: int|
                    0 <= a < b < e.members.len() ==> e.members[a] != e.members[b],
                self.sessions() == olds,
                store_inv(olds),
                0 <= i < olds.len(),
                self.registry.wf(),
                self.queues().dom() == oldq.dom(),
                forall|cid: Seq<char>| #[trigger] oldq.contains_key(cid) ==> self.queues()[cid]
                    == if e.members.take(k as int).contains(cid) {
                        oldq[cid].push(
                            EventView::GameEnded {
                                session_id: session_id@,
                                winner_id: Seq::empty(),
                                reason: reason@,
                            },
                        )
                    } else {
                        oldq[cid]
                    },
            decreases n - k,
        {
            let ghost preq = self.queues();
            let ghost cid0 = e.members[k as int];
            let ev = PushEvent::GameEnded {
                session_id: session_id.clone(),
                winner_id: String::new(),
                reason: reason.clone(),
            };
            proof {
                assert(ev@ =~~= EventView::GameEnded {
                    session_id: session_id@,
                    winner_id: Seq::empty(),
                    reason: reason@,
                });
            }
            let _ = self.registry.send(&members[k], ev);
            proof {
                assert(members.deep_view()[k as int] == cid0);
                let taken = e.members.take(k + 1);
                assert(taken.drop_last() =~= e.members.take(k as int));
                assert(taken.last() == cid0);
                assert(!e.members.take(k as int).contains(cid0)) by {
                    if e.members.take(k as int).contains(cid0) {
                        let a = choose|a: int|
                            0 <= a < k && #[trigger] e.members.take(k as int)[a] == cid0;
                        assert(e.members[a] == e.members[k as int]);
                    }
                }
                assert forall|cid: Seq<char>| #[trigger] oldq.contains_key(cid)
                    implies self.queues()[cid] == if taken.contains(cid) {
                    oldq[cid].push(
                        EventView::GameEnded {
                            session_id: session_id@,
                            winner_id: Seq::empty(),
                            reason: reason@,
                        },
                    )
                } else {
                    oldq[cid]
                } by {
                    if cid == cid0 {
                        assert(taken[k as int] == cid0);
                        assert(taken.contains(cid0));
                        assert(preq[cid0] == oldq[cid0]);
                    } else {
                        assert(self.queues()[cid] == preq[cid]);
                        assert(taken.contains(cid) == e.members.take(k as int).contains(cid)) by {
                            if taken.contains(cid) {
                                let a = choose|a: int|
                                    0 <= a < taken.len() && #[trigger] taken[a] == cid;
                                assert(a < k);
                                assert(e.members.take(k as int)[a] == cid);
                            }
                            if e.members.take(k as int).contains(cid) {
                                let a = choose|a: int|
                                    0 <= a < k && #[trigger] e.members.take(k as int)[a] == cid;
                                assert(taken[a] == cid);
                            }
                        }
                    }
                }
            }
            k = k + 1;
        }
        self.store.remove_at(i);
        proof {
            assert(e.members.take(n as int) =~= e.members);
            crate::store::lemma_remove_sid(olds, session_id@);
            assert(self.sessions() == remove_sid(olds, session_id@));
        }
    }

    /// Remove `user_id` from every session it belongs to. Each such session
    /// is closed: when one other member is left behind, that member is sent a
    /// game-ended event declaring it the winner, with a disconnect reason, if
    /// its connection is registered; then the record and membership set are
    /// deleted. Sessions the user does not belong to, and every connection's
    /// registration, are untouched. Cleaning up a user that belongs to no
    /// session changes nothing and notifies nobody.
    pub fn cleanup_user_sessions(&mut self, user_id: &String)
        requires
            old(self).wf(),
        ensures
            final(self).wf(),
            final(self).sessions() == drop_member_sessions(old(self).sessions(), user_id@),
            final(self).queues().dom() == old(self).queues().dom(),
            forall|cid: Seq<char>| #[trigger] old(self).queues().contains_key(cid)
                ==> final(self).queues()[cid] == old(self).queues()[cid] + survivor_events(
                old(self).sessions(),
                user_id@,
                cid,
            ),
    {
        let ghost origs = self.sessions();
        let ghost oldq = self.queues();
        let mut i: usize = 0;
        let ghost mut j: int = 0;
        while i < self.store.entries.len()
            invariant
                store_inv(origs),
                0 <= j <= origs.len(),
                self.sessions() =~= drop_member_sessions(origs.take(j), user_id@) + origs.skip(j),
                i == drop_member_sessions(origs.take(j), user_id@).len(),
                self.sessions().len() == i + origs.len() - j,
                store_inv(self.sessions()),
                self.registry.wf(),
                self.queues().dom() == oldq.dom(),
                forall|cid: Seq<char>| #[trigger] oldq.contains_key(cid) ==> self.queues()[cid]
                    == oldq[cid] + survivor_events(origs.take(j), user_id@, cid),
            decreases origs.len() - j,
        {
            proof {
                assert(j < origs.len());
            }
            let ghost cur = origs[j];
            proof {
                assert(self.sessions()[i as int] == origs.skip(j)[0]);
                assert(cur == self.sessions()[i as int]);
                assert(cur.wf());
                assert(origs.take(j + 1).drop_last() =~= origs.take(j));
                assert(origs.take(j + 1).last() == cur);
            }
            let is_member = members_contain(&self.store.entries[i].members, user_id);
            if is_member {
                let ghost preq = self.queues();
                let sid_c = self.store.entries[i].session_id.clone();
                let two = self.store.entries[i].members.len() == 2;
                let m_opt: Option<String> = if two {
                    if self.store.entries[i].members[0] == *user_id {
                        Some(self.store.entries[i].members[1].clone())
                    } else {
                        Some(self.store.entries[i].members[0].clone())
                    }
                } else {
                    None
                };
                proof {
                    match cur.state {
                        SessionState::Idle => {
                            assert(cur.members == seq![cur.player1]);
                        },
                        SessionState::Progressing => {},
                    }
                    match &m_opt {
                        Some(m) => {
                            assert(is_survivor(cur, user_id@, m@));
                            assert forall|x: Seq<char>| is_survivor(cur, user_id@, x) implies x
                                == m@ by {
                                let ix = choose|ix: int|
                                    0 <= ix < cur.members.len() && cur.members[ix] == x;
                            }
                        },
                        None => {
                            assert(cur.members =~= seq![cur.player1]);
                            assert forall|x: Seq<char>| !is_survivor(cur, user_id@, x) by {
                                if is_survivor(cur, user_id@, x) {
                                    let ix = choose|ix: int|
                                        0 <= ix < cur.members.len() && cur.members[ix] == x;
                                    let ic = choose|ic: int|
                                        0 <= ic < cur.members.len() && cur.members[ic] == user_id@;
                                }
                            }
                        },
                    }
                }
                if let Some(m) = m_opt {
                    let mut reason = "Player ".to_owned();
                    reason.append(user_id.as_str());
                    reason.append(" disconnected");
                    proof {
                        assert(reason@ == disconnect_reason(user_id@));
                    }
                    let ev = PushEvent::GameEnded {
                        session_id: sid_c,
                        winner_id: m.clone(),
                        reason,
                    };
                    proof {
                        assert(ev@ =~~= EventView::GameEnded {
                            session_id: cur.session_id,
                            winner_id: m@,
                            reason: disconnect_reason(user_id@),
                        });
                    }
                    let delivered = self.registry.send(&m, ev);
                    proof {
                        assert(delivered == oldq.contains_key(m@));
                        assert forall|cid: Seq<char>| #[trigger] oldq.contains_key(cid)
                            implies self.queues()[cid] == oldq[cid] + survivor_events(
                            origs.take(j + 1),
                            user_id@,
                            cid,
                        ) by {
                            if cid == m@ {
                                assert(survivor_events(origs.take(j + 1), user_id@, cid)
                                    == survivor_events(origs.take(j), user_id@, cid).push(
                                    EventView::GameEnded {
                                        session_id: cur.session_id,
                                        winner_id: cid,
                                        reason: disconnect_reason(user_id@),
                                    },
                                ));
                                assert((oldq[cid] + survivor_events(origs.take(j), user_id@, cid)).push(
                                    EventView::GameEnded {
                                        session_id: cur.session_id,
                                        winner_id: cid,
                                        reason: disconnect_reason(user_id@),
                                    },
                                ) =~= oldq[cid] + survivor_events(origs.take(j + 1), user_id@, cid));
                            } else {
                                assert(!is_survivor(cur, user_id@, cid));
                                assert(survivor_events(origs.take(j + 1), user_id@, cid)
                                    == survivor_events(origs.take(j), user_id@, cid));
                                assert(self.queues()[cid] == preq[cid]);
                            }
                        }
                    }
                } else {
                    proof {
                        assert forall|cid: Seq<char>| #[trigger] oldq.contains_key(cid)
                            implies self.queues()[cid] == oldq[cid] + survivor_events(
                            origs.take(j + 1),
                            user_id@,
                            cid,
                        ) by {
                            assert(!is_survivor(cur, user_id@, cid));
                            assert(survivor_events(origs.take(j + 1), user_id@, cid)
                                == survivor_events(origs.take(j), user_id@, cid));
                        }
                    }
                }
                let ghost pres = self.sessions();
                self.store.remove_at(i);
                proof {
                    assert(drop_member_sessions(origs.take(j + 1), user_id@)
                        == drop_member_sessions(origs.take(j), user_id@));
                    assert(self.sessions() =~= drop_member_sessions(origs.take(j + 1), user_id@)
                        + origs.skip(j + 1)) by {
                        assert(pres =~= drop_member_sessions(origs.take(j), user_id@) + origs.skip(
                            j,
                        ));
                        assert(self.sessions() =~= pres.remove(i as int));
                        assert(origs.skip(j).remove(0) =~= origs.skip(j + 1));
                    }
                    assert(sids_unique(self.sessions()) && all_wf(self.sessions())) by {
                        assert(forall|a: int|
                            0 <= a < self.sessions().len() ==> self.sessions()[a] == pres[
                            if a < i { a } else { a + 1 }]);
                    }
                    j = j + 1;
                }
            } else {
                proof {
                    assert(drop_member_sessions(origs.take(j + 1), user_id@)
                        == drop_member_sessions(origs.take(j), user_id@).push(cur));
                    assert(self.sessions() =~= drop_member_sessions(origs.take(j + 1), user_id@)
                        + origs.skip(j + 1)) by {
                        assert(origs.skip(j)[0] == cur);
                        assert(origs.skip(j).remove(0) =~= origs.skip(j + 1));
                    }
                    assert forall|cid: Seq<char>| #[trigger] oldq.contains_key(cid)
                        implies self.queues()[cid] == oldq[cid] + survivor_events(
                        origs.take(j + 1),
                        user_id@,
                        cid,
                    ) by {
                        assert(!is_survivor(cur, user_id@, cid));
                        assert(survivor_events(origs.take(j + 1), user_id@, cid) == survivor_events(
                            origs.take(j),
                            user_id@,
                            cid,
                        ));
                    }
                    j = j + 1;
                }
                i = i + 1;
            }
        }
        proof {
            assert(j == origs.len());
            assert(origs.take(j) =~= origs);
            assert(origs.skip(j) =~= Seq::<SessionView>::empty());
            assert(self.sessions() =~= drop_member_sessions(origs, user_id@) + Seq::empty());
            assert(drop_member_sessions(origs, user_id@) + Seq::<SessionView>::empty()
                =~= drop_member_sessions(origs, user_id@));
        }
    }

    /// Handle a new connection: assign it a fresh identity, register it, and
    /// enqueue the identity itself as the connection's first outbound
    /// message — the handshake completion signal. Returns the identity.
    pub fn on_connect(&mut self) -> (id: String)
        requires
            old(self).wf(),
        ensures
            final(self).wf(),
            final(self).sessions() == old(self).sessions(),
            id@.len() == 36,
            final(self).queues() == old(self).queues().insert(
                id@,
                seq![EventView::Welcome { connection_id: id@ }],
            ),
    {
        let id = fresh_id();
        self.registry.register(id.clone());
        let ev = PushEvent::Welcome { connection_id: id.clone() };
        let _ = self.registry.send(&id, ev);
        proof {
            assert(Seq::<EventView>::empty().push(EventView::Welcome { connection_id: id@ })
                =~= seq![EventView::Welcome { connection_id: id@ }]);
            assert(final(self).queues() =~= old(self).queues().insert(
                id@,
                seq![EventView::Welcome { connection_id: id@ }],
            ));
        }
        id
    }

    /// Handle a connection's departure (graceful close or transport error):
    /// remove its registration exactly once, then clean up every session it
    /// belonged to, notifying each surviving opponent. Runs to completion in
    /// one step; repeating it for an already-departed connection changes
    /// nothing further.
    pub fn on_disconnect(&mut self, connection_id: &String)
        requires
            old(self).wf(),
        ensures
            final(self).wf(),
            final(self).sessions() == drop_member_sessions(old(self).sessions(), connection_id@),
            final(self).queues().dom() == old(self).queues().dom().remove(connection_id@),
            forall|cid: Seq<char>|
                #[trigger] old(self).queues().contains_key(cid) && cid != connection_id@
                    ==> final(self).queues()[cid] == old(self).queues()[cid] + survivor_events(
                    old(self).sessions(),
                    connection_id@,
                    cid,
                ),
    {
        self.registry.unregister(connection_id);
        self.cleanup_user_sessions(connection_id);
    }
}

/// Law: in a store of well-formed sessions, every membership set holds at
/// most two members, and exactly as many as the session's filled player
/// slots.
pub proof fn lemma_membership_matches_slots(s: Seq<SessionView>)
    requires
        all_wf(s),
    ensures
        forall|i: int|
            0 <= i < s.len() ==> (#[trigger] s[i]).members.len() <= 2 && s[i].members.len()
                == s[i].filled_slots(),
{
    assert forall|i: int|
        0 <= i < s.len() implies (#[trigger] s[i]).members.len() <= 2 && s[i].members.len()
        == s[i].filled_slots() by {
        assert(s[i].wf());
    }
}

/// After cleanup, no remaining session holds the departed connection.
proof fn lemma_drop_no_member(s: Seq<SessionView>, c: Seq<char>)
    ensures
        forall|k: int|
            0 <= k < drop_member_sessions(s, c).len() ==> !(#[trigger] drop_member_sessions(
                s,
                c,
            )[k]).members.contains(c),
    decreases s.len(),
{
    if s.len() > 0 {
        lemma_drop_no_member(s.drop_last(), c);
        let t = drop_member_sessions(s, c);
        let t2 = drop_member_sessions(s.drop_last(), c);
        assert forall|k: int| 0 <= k < t.len() implies !(#[trigger] t[k]).members.contains(c) by {
            if !s.last().members.contains(c) && k == t.len() - 1 {
                assert(t[k] == s.last());
            } else {
                assert(t[k] == t2[k]);
            }
        }
    }
}

/// A store in which no session holds `c` is untouched by cleaning up `c`,
/// and the cleanup notifies nobody.
proof fn lemma_cleanup_of_absent(s: Seq<SessionView>, c: Seq<char>, m: Seq<char>)
    requires
        forall|k: int| 0 <= k < s.len() ==> !(#[trigger] s[k]).members.contains(c),
    ensures
        drop_member_sessions(s, c) == s,
        survivor_events(s, c, m) == Seq::<EventView>::empty(),
    decreases s.len(),
{
    if s.len() == 0 {
        assert(drop_member_sessions(s, c) =~= s);
    } else {
        assert(forall|k: int|
            0 <= k < s.drop_last().len() ==> !(#[trigger] s.drop_last()[k]).members.contains(c));
        lemma_cleanup_of_absent(s.drop_last(), c, m);
        assert(!s.last().members.contains(c));
        assert(drop_member_sessions(s, c) == s.drop_last().push(s.last()));
        assert(s.drop_last().push(s.last()) =~= s);
        assert(!is_survivor(s.last(), c, m));
    }
}

/// Law: disconnect cleanup is idempotent. Once a connection has been removed
/// from every session, cleaning it up again deletes nothing and notifies
/// nobody.
pub proof fn lemma_cleanup_idempotent(s: Seq<SessionView>, c: Seq<char>, m: Seq<char>)
    ensures
        drop_member_sessions(drop_member_sessions(s, c), c) == drop_member_sessions(s, c),
        survivor_events(drop_member_sessions(s, c), c, m) == Seq::<EventView>::empty(),
{
    lemma_drop_no_member(s, c);
    lemma_cleanup_of_absent(drop_member_sessions(s, c), c, m);
}

/// Every session left after cleanup was already stored before it.
proof fn lemma_drop_subset(s: Seq<SessionView>, c: Seq<char>)
    ensures
        forall|w: int|
            0 <= w < drop_member_sessions(s, c).len() ==> exists|o: int|
                0 <= o < s.len() && #[trigger] drop_member_sessions(s, c)[w] == s[o],
    decreases s.len(),
{
    if s.len() > 0 {
        lemma_drop_subset(s.drop_last(), c);
        let t = drop_member_sessions(s, c);
        let t2 = drop_member_sessions(s.drop_last(), c);
        assert forall|w: int| 0 <= w < t.len() implies exists|o: int|
            0 <= o < s.len() && #[trigger] t[w] == s[o] by {
            if !s.last().members.contains(c) && w == t.len() - 1 {
                assert(t[w] == s[s.len() - 1]);
            } else {
                assert(t[w] == t2[w]);
                let o2 = choose|o2: int| 0 <= o2 < s.drop_last().len() && t2[w] == s.drop_last()[o2];
                assert(t[w] == s[o2]);
            }
        }
    }
}

/// Law: when a connection that belongs only to idle sessions it owns — player
/// 1 before anyone has joined — disconnects, each such session's record and
/// membership set are deleted outright, and no notification is produced for
/// anybody.
pub proof fn lemma_disconnect_before_join(s: Seq<SessionView>, c: Seq<char>, m: Seq<char>)
    requires
        store_inv(s),
        forall|k: int|
            0 <= k < s.len() && (#[trigger] s[k]).members.contains(c) ==> s[k].state
                == SessionState::Idle,
    ensures
        survivor_events(s, c, m) == Seq::<EventView>::empty(),
        forall|k: int|
            0 <= k < s.len() && (#[trigger] s[k]).members.contains(c) ==> !has_sid(
                drop_member_sessions(s, c),
                s[k].session_id,
            ),
    decreases s.len(),
{
    if s.len() > 0 {
        assert(forall|k: int|
            0 <= k < s.drop_last().len() ==> s.drop_last()[k] == #[trigger] s[k]);
        lemma_disconnect_before_join(s.drop_last(), c, m);
        if is_survivor(s.last(), c, m) {
            assert(s[s.len() - 1].wf());
            assert(s.last().state == SessionState::Idle);
            assert(s.last().members == seq![s.last().player1]);
            let ic = choose|ic: int|
                0 <= ic < s.last().members.len() && s.last().members[ic] == c;
            let im = choose|im: int|
                0 <= im < s.last().members.len() && s.last().members[im] == m;
            assert(false);
        }
    }
    lemma_drop_no_member(s, c);
    lemma_drop_subset(s, c);
    let t = drop_member_sessions(s, c);
    assert forall|k: int|
        0 <= k < s.len() && (#[trigger] s[k]).members.contains(c) implies !has_sid(
        t,
        s[k].session_id,
    ) by {
        if has_sid(t, s[k].session_id) {
            let w = choose|w: int| 0 <= w < t.len() && (#[trigger] t[w].session_id)
                == s[k].session_id;
            let o = choose|o: int| 0 <= o < s.len() && #[trigger] t[w] == s[o];
            if o != k {
                assert(s[o].session_id != s[k].session_id);
            }
            assert(t[w] == s[k]);
            assert(!t[w].members.contains(c));
        }
    }
}

} // verus!
