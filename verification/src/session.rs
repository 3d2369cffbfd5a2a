//! One outbound peer session: the connection state machine, the pending
//! write buffer, and (as ghost state) the byte stream the remote peer has
//! received since the session last connected.
//!
//! Within one connection epoch the session preserves submission order:
//! what has been delivered plus what is still pending is exactly the
//! framed submissions, in submission order. A teardown starts a new epoch.

use crate::backoff::{backoff_delay_ms, spec_backoff, BACKOFF_CAP_MS};
use crate::config::PeerAddr;
use crate::frame::{encode_frame, frames_of, lemma_frames_of_push, spec_frame, MAX_PAYLOAD};
use vstd::prelude::*;

verus! {

/// The connection state of one outbound peer session.
#[derive(Clone, Copy, PartialEq, Eq, Structural, Debug)]
pub enum SessionState {
    /// No socket; the next submission or loop tick starts a connect.
    Disconnected,
    /// A non-blocking connect is in flight; not yet known to have reached
    /// the peer.
    Connecting,
    /// The socket is established; pending bytes drain as it is writable.
    Connected,
    /// A failed session waits until the carried time (in ms) has passed
    /// before it may reconnect.
    Backoff(u64),
}

/// What the OS reported for a non-blocking connect attempt.
#[derive(Clone, Copy, PartialEq, Eq, Structural, Debug)]
pub enum ConnectOutcome {
    /// The connect completed at once.
    Immediate,
    /// The connect is in progress; writability will tell.
    InProgress,
    /// The connect failed at once.
    Failed,
}

/// What `PeerSession::tick` does: an elapsed backoff deadline moves the
/// session to Disconnected and everything else stays as it was.
pub open spec fn tick_effect(pre: PeerSession, post: PeerSession, now_ms: u64) -> bool {
    &&& post.peer_id == pre.peer_id
    &&& post.addr == pre.addr
    &&& post.failures == pre.failures
    &&& post.pending == pre.pending
    &&& post.submitted == pre.submitted
    &&& post.delivered == pre.delivered
    &&& ((pre.state matches SessionState::Backoff(t) && t <= now_ms)
        ==> post.state is Disconnected)
    &&& (!(pre.state matches SessionState::Backoff(t) && t <= now_ms) ==> post.state == pre.state)
}

/// What `PeerSession::submit` does to the session, case by case on the
/// state the session was in.
pub open spec fn submit_effect(
    pre: PeerSession,
    post: PeerSession,
    payload: Seq<u8>,
    outcome: Option<ConnectOutcome>,
    now_ms: u64,
) -> bool {
    &&& post.wf()
    &&& post.peer_id == pre.peer_id
    &&& post.addr == pre.addr
    &&& (pre.state is Backoff ==> post == pre)
    &&& ((pre.state is Connecting || pre.state is Connected) ==> post.state == pre.state
        && post.failures == pre.failures && post.submitted@ == pre.submitted@.push(payload)
        && post.pending@ == pre.pending@ + spec_frame(payload) && post.delivered@
        == pre.delivered@)
    &&& ((pre.state is Disconnected && outcome == Some(ConnectOutcome::Immediate))
        ==> post.state is Connected && post.failures == 0 && post.submitted@ == seq![payload]
        && post.pending@ == spec_frame(payload) && post.delivered@ == Seq::<u8>::empty())
    &&& ((pre.state is Disconnected && outcome == Some(ConnectOutcome::InProgress))
        ==> post.state is Connecting && post.failures == pre.failures && post.submitted@ == seq![
        payload,
    ] && post.pending@ == spec_frame(payload) && post.delivered@ == Seq::<u8>::empty())
    &&& ((pre.state is Disconnected && outcome == Some(ConnectOutcome::Failed)) ==> post.state
        == SessionState::Backoff((now_ms + spec_backoff(pre.failures as nat)) as u64)
        && post.failures == (if pre.failures < u32::MAX {
        pre.failures + 1
    } else {
        pre.failures as int
    }) && post.pending@.len() == 0 && post.submitted@.len() == 0 && post.delivered@.len() == 0)
}

/// One outbound session to a remote peer.
pub struct PeerSession {
    /// The remote peer's identifier.
    pub peer_id: i32,
    /// The remote peer's address.
    pub addr: PeerAddr,
    /// Where the session stands.
    pub state: SessionState,
    /// Bytes queued for the peer but not yet written.
    pub pending: Vec<u8>,
    /// Consecutive connect failures since the last success.
    pub failures: u32,
    /// The payloads accepted for this connection epoch, in order.
    pub submitted: Ghost<Seq<Seq<u8>>>,
    /// The bytes the socket has taken this epoch, in order.
    pub delivered: Ghost<Seq<u8>>,
}

impl PeerSession {
    /// Well-formed: an idle session holds nothing, and in every state the
    /// delivered bytes followed by the pending bytes are exactly the framed
    /// submissions of this epoch, in submission order.
    pub open spec fn wf(&self) -> bool {
        &&& ((self.state is Disconnected || self.state is Backoff) ==> self.pending@.len() == 0
            && self.submitted@.len() == 0 && self.delivered@.len() == 0)
        &&& self.delivered@ + self.pending@ == frames_of(self.submitted@)
        &&& forall|i: int|
            0 <= i < self.submitted@.len() ==> (#[trigger] self.submitted@[i]).len()
                <= MAX_PAYLOAD
    }

    /// Registered for write-readiness exactly while bytes are pending.
    pub open spec fn wants_write(&self) -> bool {
        self.pending@.len() > 0
    }

    /// A fresh session: disconnected, nothing pending, no failures.
    pub fn new(peer_id: i32, addr: PeerAddr) -> (s: PeerSession)
        ensures
            s.wf(),
            s.peer_id == peer_id,
            s.addr == addr,
            s.state is Disconnected,
            s.failures == 0,
            s.pending@.len() == 0,
            s.submitted@ == Seq::<Seq<u8>>::empty(),
            s.delivered@ == Seq::<u8>::empty(),
    {
        let s = PeerSession {
            peer_id,
            addr,
            state: SessionState::Disconnected,
            pending: Vec::new(),
            failures: 0,
            submitted: Ghost(Seq::empty()),
            delivered: Ghost(Seq::empty()),
        };
        proof {
            assert(s.delivered@ + s.pending@ =~= frames_of(s.submitted@));
        }
        s
    }

    /// Whether a submission must first attempt a connect.
    pub fn needs_connect(&self) -> (r: bool)
        ensures
            r == (self.state is Disconnected),
    {
        match self.state {
            SessionState::Disconnected => true,
            _ => false,
        }
    }

    /// How many bytes wait to be written.
    pub fn pending_len(&self) -> (n: usize)
        ensures
            n == self.pending@.len(),
    {
        self.pending.len()
    }

    /// An elapsed backoff deadline moves the session to Disconnected, so
    /// the next submission or tick reconnects; anything else is untouched.
    pub fn tick(&mut self, now_ms: u64)
        requires
            old(self).wf(),
        ensures
            final(self).wf(),
            tick_effect(*old(self), *final(self), now_ms),
    {
        match self.state {
            SessionState::Backoff(t) => {
                if t <= now_ms {
                    self.state = SessionState::Disconnected;
                }
            },
            _ => {},
        }
    }

    /// Appends one framed payload to the pending buffer and records it as
    /// submitted for this epoch.
    fn enqueue(&mut self, payload: &[u8])
        requires
            old(self).wf(),
            payload@.len() <= MAX_PAYLOAD,
        ensures
            final(self).wf() <== (final(self).state is Connecting || final(self).state is Connected),
            final(self).peer_id == old(self).peer_id,
            final(self).addr == old(self).addr,
            final(self).state == old(self).state,
            final(self).failures == old(self).failures,
            final(self).submitted@ == old(self).submitted@.push(payload@),
            final(self).pending@ == old(self).pending@ + spec_frame(payload@),
            final(self).delivered@ == old(self).delivered@,
    {
        let mut f = encode_frame(payload);
        self.pending.append(&mut f);
        proof {
            self.submitted@ = self.submitted@.push(payload@);
            lemma_frames_of_push(old(self).submitted@, payload@);
            assert(self.delivered@ + self.pending@ =~= (old(self).delivered@ + old(self).pending@)
                + spec_frame(payload@));
        }
    }

    /// Accepts one payload for this peer, as the broadcaster fans a
    /// submission out.
    ///
    /// A Disconnected session first attempts a connect, whose outcome the
    /// caller supplies; a session in Backoff drops the payload entirely —
    /// nothing is buffered for it, which is observable. A Connecting or
    /// Connected session appends the framed payload behind everything
    /// already pending, preserving submission order. A connect that
    /// succeeds at once starts a fresh epoch holding just this payload;
    /// one that fails at once schedules a retry after the backoff delay
    /// and counts the failure.
    ///
    /// Returns whether the payload was queued for this peer.
    pub fn submit(&mut self, payload: &[u8], outcome: Option<ConnectOutcome>, now_ms: u64) -> (queued:
        bool)
        requires
            old(self).wf(),
            payload@.len() <= MAX_PAYLOAD,
            (outcome is Some) <==> (old(self).state is Disconnected),
            now_ms + BACKOFF_CAP_MS <= u64::MAX,
        ensures
            final(self).wf(),
            submit_effect(*old(self), *final(self), payload@, outcome, now_ms),
            queued <==> !(old(self).state is Backoff) && outcome != Some(ConnectOutcome::Failed),
    {
        match self.state {
            SessionState::Backoff(_) => false,
            SessionState::Connecting | SessionState::Connected => {
                self.enqueue(payload);
                true
            },
            SessionState::Disconnected => {
                match outcome {
                    None => {
                        proof {
                            assert(false);
                        }
                        false
                    },
                    Some(ConnectOutcome::Immediate) => {
                        self.state = SessionState::Connected;
                        self.failures = 0;
                        self.enqueue(payload);
                        proof {
                            assert(final(self).submitted@ =~= seq![payload@]);
                            assert(final(self).pending@ =~= spec_frame(payload@));
                        }
                        true
                    },
                    Some(ConnectOutcome::InProgress) => {
                        self.state = SessionState::Connecting;
                        self.enqueue(payload);
                        proof {
                            assert(final(self).submitted@ =~= seq![payload@]);
                            assert(final(self).pending@ =~= spec_frame(payload@));
                        }
                        true
                    },
                    Some(ConnectOutcome::Failed) => {
                        let delay = backoff_delay_ms(self.failures);
                        self.state = SessionState::Backoff(now_ms + delay);
                        if self.failures < u32::MAX {
                            self.failures = self.failures + 1;
                        }
                        false
                    },
                }
            },
        }
    }

    /// Tears the session down after a connect or socket failure: the
    /// socket closes, everything buffered is discarded, a retry is
    /// scheduled after the backoff delay, and the failure is counted.
    /// The next epoch starts empty.
    pub fn teardown(&mut self, now_ms: u64)
        requires
            old(self).wf(),
            now_ms + BACKOFF_CAP_MS <= u64::MAX,
        ensures
            final(self).wf(),
            final(self).peer_id == old(self).peer_id,
            final(self).addr == old(self).addr,
            final(self).state == SessionState::Backoff((now_ms + spec_backoff(old(self).failures as nat)) as u64),
            final(self).failures == (if old(self).failures < u32::MAX {
                old(self).failures + 1
            } else {
                old(self).failures as int
            }),
            final(self).pending@.len() == 0,
            final(self).submitted@.len() == 0,
            final(self).delivered@.len() == 0,
    {
        let delay = backoff_delay_ms(self.failures);
        self.state = SessionState::Backoff(now_ms + delay);
        if self.failures < u32::MAX {
            self.failures = self.failures + 1;
        }
        self.pending = Vec::new();
        proof {
            self.submitted@ = Seq::empty();
            self.delivered@ = Seq::empty();
            assert(self.delivered@ + self.pending@ =~= frames_of(self.submitted@));
        }
    }

    /// Resolves an in-flight connect once the socket turns writable and
    /// `SO_ERROR` has been read: success makes the session Connected and
    /// resets its backoff to the base — everything queued while connecting
    /// stays pending, so a peer that re-accepts receives every submission
    /// of the new epoch — while failure tears the session down.
    pub fn on_connect_result(&mut self, ok: bool, now_ms: u64)
        requires
            old(self).wf(),
            old(self).state is Connecting,
            now_ms + BACKOFF_CAP_MS <= u64::MAX,
        ensures
            final(self).wf(),
            final(self).peer_id == old(self).peer_id,
            final(self).addr == old(self).addr,
            ok ==> final(self).state is Connected && final(self).failures == 0 && final(self).pending == old(self).pending && final(self).submitted == old(self).submitted && final(self).delivered == old(self).delivered,
            !ok ==> final(self).state == SessionState::Backoff((now_ms + spec_backoff(old(self).failures as nat)) as u64)
                && final(self).failures == (if old(self).failures < u32::MAX {
                old(self).failures + 1
            } else {
                old(self).failures as int
            }) && final(self).pending@.len() == 0 && final(self).submitted@.len() == 0 && final(self).delivered@.len() == 0,
    {
        if ok {
            self.state = SessionState::Connected;
            self.failures = 0;
        } else {
            self.teardown(now_ms);
        }
    }

    /// Records that the socket took `n` pending bytes: they move, in
    /// order, from the pending buffer to the delivered stream.
    pub fn on_wrote(&mut self, n: usize)
        requires
            old(self).wf(),
            old(self).state is Connected,
            n <= old(self).pending@.len(),
        ensures
            final(self).wf(),
            final(self).peer_id == old(self).peer_id,
            final(self).addr == old(self).addr,
            final(self).state == old(self).state,
            final(self).failures == old(self).failures,
            final(self).submitted == old(self).submitted,
            final(self).pending@ == old(self).pending@.skip(n as int),
            final(self).delivered@ == old(self).delivered@ + old(self).pending@.take(n as int),
    {
        let mut rest: Vec<u8> = Vec::new();
        let mut j: usize = n;
        while j < self.pending.len()
            invariant
                n <= j <= self.pending@.len(),
                self.pending == old(self).pending,
                rest@ == self.pending@.subrange(n as int, j as int),
            decreases self.pending@.len() - j,
        {
            let b = self.pending[j];
            rest.push(b);
            proof {
                assert(rest@ =~= self.pending@.subrange(n as int, j + 1 as int));
            }
            j = j + 1;
        }
        proof {
            assert(rest@ =~= old(self).pending@.skip(n as int));
        }
        self.pending = rest;
        proof {
            self.delivered@ = self.delivered@ + old(self).pending@.take(n as int);
            assert(self.delivered@ + self.pending@ =~= old(self).delivered@ + old(self).pending@);
        }
    }
}

/// Per-peer FIFO: once a session's pending buffer has drained, the byte
/// stream the peer has received this epoch is exactly the concatenation
/// of the framed submissions, in submission order.
pub proof fn lemma_per_peer_fifo(s: PeerSession)
    requires
        s.wf(),
        s.pending@.len() == 0,
    ensures
        s.delivered@ == frames_of(s.submitted@),
{
    assert(s.delivered@ + s.pending@ =~= s.delivered@);
}

} // verus!
