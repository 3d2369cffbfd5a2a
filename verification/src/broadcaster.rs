//! The broadcaster: one outbound session per remote peer. A submission
//! fans out to every session; sessions in Backoff drop it, all others
//! queue exactly one framed copy behind what they already hold.

use crate::backoff::BACKOFF_CAP_MS;
use crate::config::{Config, PeerAddr};
use crate::frame::{spec_frame, MAX_PAYLOAD};
use crate::session::{submit_effect, tick_effect, ConnectOutcome, PeerSession, SessionState};
use vstd::prelude::*;
use vstd::std_specs::vec::vec_index_mut;

verus! {

/// The peer entries that are not this peer itself, in table order.
pub open spec fn remotes_of(self_id: i32, peers: Seq<(i32, PeerAddr)>) -> Seq<(i32, PeerAddr)>
    decreases peers.len(),
{
    if peers.len() == 0 {
        Seq::empty()
    } else if peers.last().0 == self_id {
        remotes_of(self_id, peers.drop_last())
    } else {
        remotes_of(self_id, peers.drop_last()).push(peers.last())
    }
}

/// The identity and address of a session, for matching sessions against
/// configuration entries.
pub open spec fn session_entry(s: PeerSession) -> (i32, PeerAddr) {
    (s.peer_id, s.addr)
}

/// The broadcaster's state: one session per remote peer.
pub struct Broadcaster {
    /// The outbound sessions, one per remote peer, in table order.
    pub sessions: Vec<PeerSession>,
}

impl Broadcaster {
    /// Well-formed: every session is.
    pub open spec fn wf(&self) -> bool {
        forall|i: int| 0 <= i < self.sessions@.len() ==> (#[trigger] self.sessions@[i]).wf()
    }

    /// One fresh Disconnected session per remote peer of the
    /// configuration — every peer but this one — in table order.
    pub fn new(config: &Config) -> (b: Broadcaster)
        ensures
            b.wf(),
            b.sessions@.map_values(|s: PeerSession| session_entry(s)) == remotes_of(
                config.self_id,
                config.peers@,
            ),
            forall|i: int|
                0 <= i < b.sessions@.len() ==> (#[trigger] b.sessions@[i]).state is Disconnected
                    && b.sessions@[i].failures == 0 && b.sessions@[i].pending@.len() == 0
                    && b.sessions@[i].submitted@ == Seq::<Seq<u8>>::empty()
                    && b.sessions@[i].delivered@ == Seq::<u8>::empty(),
    {
        let mut sessions: Vec<PeerSession> = Vec::new();
        let n = config.peer_count();
        let mut i: usize = 0;
        proof {
            assert(config.peers@.take(0) =~= Seq::<(i32, PeerAddr)>::empty());
            assert(sessions@.map_values(|s: PeerSession| session_entry(s)) =~= remotes_of(
                config.self_id,
                config.peers@.take(0),
            ));
        }
        while i < n
            invariant
                i <= n == config.peers@.len(),
                sessions@.map_values(|s: PeerSession| session_entry(s)) == remotes_of(
                    config.self_id,
                    config.peers@.take(i as int),
                ),
                forall|j: int|
                    0 <= j < sessions@.len() ==> (#[trigger] sessions@[j]).wf()
                        && sessions@[j].state is Disconnected && sessions@[j].failures == 0
                        && sessions@[j].pending@.len() == 0 && sessions@[j].submitted@ == Seq::<
                        Seq<u8>,
                    >::empty() && sessions@[j].delivered@ == Seq::<u8>::empty(),
            decreases n - i,
        {
            let (id, addr) = config.peers[i];
            proof {
                assert(config.peers@.take(i as int + 1).drop_last() =~= config.peers@.take(
                    i as int,
                ));
                assert(config.peers@.take(i as int + 1).last() == config.peers@[i as int]);
            }
            if id != config.self_id {
                let s = PeerSession::new(id, addr);
                sessions.push(s);
                proof {
                    assert(sessions@.map_values(|s: PeerSession| session_entry(s)) =~= remotes_of(
                        config.self_id,
                        config.peers@.take(i as int + 1),
                    ));
                }
            } else {
                proof {
                    assert(sessions@.map_values(|s: PeerSession| session_entry(s)) =~= remotes_of(
                        config.self_id,
                        config.peers@.take(i as int + 1),
                    ));
                }
            }
            i = i + 1;
        }
        proof {
            assert(config.peers@.take(n as int) =~= config.peers@);
        }
        Broadcaster { sessions }
    }

    /// How many sessions the broadcaster holds.
    pub fn len(&self) -> (n: usize)
        ensures
            n == self.sessions@.len(),
    {
        self.sessions.len()
    }

    /// The state of the session at `i`.
    pub fn state_at(&self, i: usize) -> (s: SessionState)
        requires
            i < self.sessions@.len(),
        ensures
            s == self.sessions@[i as int].state,
    {
        self.sessions[i].state
    }

    /// The remote address of the session at `i`.
    pub fn addr_at(&self, i: usize) -> (a: PeerAddr)
        requires
            i < self.sessions@.len(),
        ensures
            a == self.sessions@[i as int].addr,
    {
        self.sessions[i].addr
    }

    /// Moves every session whose backoff deadline has passed to
    /// Disconnected, so the next submission reconnects it.
    pub fn tick_all(&mut self, now_ms: u64)
        requires
            old(self).wf(),
        ensures
            final(self).wf(),
            final(self).sessions@.len() == old(self).sessions@.len(),
            forall|i: int|
                0 <= i < old(self).sessions@.len() ==> tick_effect(
                    old(self).sessions@[i],
                    #[trigger] final(self).sessions@[i],
                    now_ms,
                ),
    {
        let n = self.sessions.len();
        let mut i: usize = 0;
        while i < n
            invariant
                i <= n == self.sessions@.len(),
                self.sessions@.len() == old(self).sessions@.len(),
                forall|j: int|
                    0 <= j < self.sessions@.len() ==> (#[trigger] self.sessions@[j]).wf(),
                forall|j: int|
                    0 <= j < i ==> tick_effect(
                        old(self).sessions@[j],
                        #[trigger] self.sessions@[j],
                        now_ms,
                    ),
                forall|j: int|
                    i <= j < self.sessions@.len() ==> #[trigger] self.sessions@[j] == old(self).sessions@[j],
            decreases n - i,
        {
            let s = vec_index_mut(&mut self.sessions, i);
            s.tick(now_ms);
            i = i + 1;
        }
    }

    /// Fans one payload out: every session takes it as `PeerSession::submit`
    /// says — a Backoff session drops it, every other queues exactly one
    /// framed copy behind what it already holds. The caller supplies, for
    /// each Disconnected session, the outcome of the connect attempt made
    /// for it, and `None` for every other session.
    pub fn submit_all(
        &mut self,
        payload: &[u8],
        outcomes: &Vec<Option<ConnectOutcome>>,
        now_ms: u64,
    )
        requires
            old(self).wf(),
            payload@.len() <= MAX_PAYLOAD,
            outcomes@.len() == old(self).sessions@.len(),
            forall|i: int|
                0 <= i < outcomes@.len() ==> ((#[trigger] outcomes@[i]) is Some <==> old(self).sessions@[i].state is Disconnected),
            now_ms + BACKOFF_CAP_MS <= u64::MAX,
        ensures
            final(self).wf(),
            final(self).sessions@.len() == old(self).sessions@.len(),
            forall|i: int|
                0 <= i < old(self).sessions@.len() ==> submit_effect(
                    old(self).sessions@[i],
                    #[trigger] final(self).sessions@[i],
                    payload@,
                    outcomes@[i],
                    now_ms,
                ),
    {
        let n = self.sessions.len();
        let mut i: usize = 0;
        while i < n
            invariant
                i <= n == self.sessions@.len(),
                self.sessions@.len() == old(self).sessions@.len(),
                outcomes@.len() == old(self).sessions@.len(),
                payload@.len() <= MAX_PAYLOAD,
                now_ms + BACKOFF_CAP_MS <= u64::MAX,
                forall|j: int|
                    0 <= j < outcomes@.len() ==> ((#[trigger] outcomes@[j]) is Some <==> old(self).sessions@[j].state is Disconnected),
                forall|j: int|
                    0 <= j < self.sessions@.len() ==> (#[trigger] self.sessions@[j]).wf(),
                forall|j: int|
                    0 <= j < i ==> submit_effect(
                        old(self).sessions@[j],
                        #[trigger] self.sessions@[j],
                        payload@,
                        outcomes@[j],
                        now_ms,
                    ),
                forall|j: int|
                    i <= j < self.sessions@.len() ==> #[trigger] self.sessions@[j] == old(self).sessions@[j],
            decreases n - i,
        {
            let oc = outcomes[i];
            let s = vec_index_mut(&mut self.sessions, i);
            s.submit(payload, oc, now_ms);
            i = i + 1;
        }
    }

    /// Resolves the in-flight connect of the session at `i`; no other
    /// session is touched.
    pub fn on_connect_result_at(&mut self, i: usize, ok: bool, now_ms: u64)
        requires
            old(self).wf(),
            i < old(self).sessions@.len(),
            old(self).sessions@[i as int].state is Connecting,
            now_ms + BACKOFF_CAP_MS <= u64::MAX,
        ensures
            final(self).wf(),
            final(self).sessions@.len() == old(self).sessions@.len(),
            forall|j: int|
                0 <= j < old(self).sessions@.len() && j != i ==> #[trigger] final(self).sessions@[j] == old(self).sessions@[j],
            ok ==> final(self).sessions@[i as int].state is Connected && final(self).sessions@[i as int].failures == 0 && final(self).sessions@[i as int].pending == old(self).sessions@[i as int].pending && final(self).sessions@[i as int].submitted == old(self).sessions@[i as int].submitted && final(self).sessions@[i as int].delivered == old(self).sessions@[i as int].delivered,
            !ok ==> final(self).sessions@[i as int].state is Backoff && final(self).sessions@[i as int].pending@.len() == 0 && final(self).sessions@[i as int].submitted@.len() == 0,
    {
        let s = vec_index_mut(&mut self.sessions, i);
        s.on_connect_result(ok, now_ms);
    }

    /// Records bytes the socket of the session at `i` took; no other
    /// session is touched.
    pub fn on_wrote_at(&mut self, i: usize, n: usize)
        requires
            old(self).wf(),
            i < old(self).sessions@.len(),
            old(self).sessions@[i as int].state is Connected,
            n <= old(self).sessions@[i as int].pending@.len(),
        ensures
            final(self).wf(),
            final(self).sessions@.len() == old(self).sessions@.len(),
            forall|j: int|
                0 <= j < old(self).sessions@.len() && j != i ==> #[trigger] final(self).sessions@[j] == old(self).sessions@[j],
            final(self).sessions@[i as int].pending@ == old(self).sessions@[i as int].pending@.skip(
                n as int,
            ),
            final(self).sessions@[i as int].delivered@ == old(self).sessions@[i as int].delivered@ + old(self).sessions@[i as int].pending@.take(n as int),
            final(self).sessions@[i as int].state == old(self).sessions@[i as int].state,
            final(self).sessions@[i as int].submitted == old(self).sessions@[i as int].submitted,
    {
        let s = vec_index_mut(&mut self.sessions, i);
        s.on_wrote(n);
    }

    /// Tears the session at `i` down after a socket failure or peer
    /// close; no other session is touched.
    pub fn teardown_at(&mut self, i: usize, now_ms: u64)
        requires
            old(self).wf(),
            i < old(self).sessions@.len(),
            now_ms + BACKOFF_CAP_MS <= u64::MAX,
        ensures
            final(self).wf(),
            final(self).sessions@.len() == old(self).sessions@.len(),
            forall|j: int|
                0 <= j < old(self).sessions@.len() && j != i ==> #[trigger] final(self).sessions@[j] == old(self).sessions@[j],
            final(self).sessions@[i as int].state is Backoff,
            final(self).sessions@[i as int].pending@.len() == 0,
            final(self).sessions@[i as int].submitted@.len() == 0,
            final(self).sessions@[i as int].delivered@.len() == 0,
    {
        let s = vec_index_mut(&mut self.sessions, i);
        s.teardown(now_ms);
    }
}

/// A submission during one peer's backoff window is dropped for that
/// peer — nothing of it is buffered, so the peer never receives it even
/// after reconnecting — while every connected peer's session queues its
/// framed copy. Together with the empty epoch a reconnect starts, a peer
/// that re-accepts receives exactly the submissions made after that.
pub proof fn lemma_backoff_drops_for_one_peer_only(
    pres: Seq<PeerSession>,
    posts: Seq<PeerSession>,
    payload: Seq<u8>,
    outcomes: Seq<Option<ConnectOutcome>>,
    now_ms: u64,
    i: int,
    j: int,
)
    requires
        pres.len() == posts.len(),
        forall|k: int|
            0 <= k < pres.len() ==> submit_effect(
                #[trigger] pres[k],
                posts[k],
                payload,
                outcomes[k],
                now_ms,
            ),
        0 <= i < pres.len() && pres[i].state is Backoff,
        0 <= j < pres.len() && pres[j].state is Connected,
    ensures
        posts[i] == pres[i],
        posts[j].pending@ == pres[j].pending@ + spec_frame(payload),
        posts[j].submitted@ == pres[j].submitted@.push(payload),
{
}

/// Fan-out: when every session is connected, one submission yields
/// exactly one framed copy of the payload on each session's stream, in
/// submission order behind what was already queued.
pub proof fn lemma_fan_out(
    pres: Seq<PeerSession>,
    posts: Seq<PeerSession>,
    payload: Seq<u8>,
    outcomes: Seq<Option<ConnectOutcome>>,
    now_ms: u64,
)
    requires
        pres.len() == posts.len(),
        forall|i: int|
            0 <= i < pres.len() ==> submit_effect(
                #[trigger] pres[i],
                posts[i],
                payload,
                outcomes[i],
                now_ms,
            ),
        forall|i: int| 0 <= i < pres.len() ==> (#[trigger] pres[i]).state is Connected,
    ensures
        forall|i: int|
            0 <= i < posts.len() ==> (#[trigger] posts[i]).pending@ == pres[i].pending@
                + spec_frame(payload) && posts[i].submitted@ == pres[i].submitted@.push(payload),
{
}

} // verus!
