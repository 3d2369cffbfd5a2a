//! The inbound listener's client table: one entry per accepted client
//! connection, each with its event-loop token and its receive buffer.
//! Bytes a client sends accumulate until complete frames can be cut off;
//! a malformed frame condemns only that client, no other entry is touched.

use crate::frame::{drain_ok, drain_payloads, drain_rest, take_frame, FrameStep};
use vstd::prelude::*;

verus! {

/// The reserved event-loop token of the listener socket itself.
pub const LISTENER_TOKEN: usize = 0;

/// One accepted client connection.
pub struct ClientConn {
    /// The connection's event-loop token; never the listener's.
    pub token: usize,
    /// Bytes received but not yet cut into complete frames.
    pub buf: Vec<u8>,
}

/// The table of live client connections, and the next token to hand out.
pub struct ClientTable {
    /// The live connections, in accept order.
    pub clients: Vec<ClientConn>,
    /// The next unused token; tokens count up from 1.
    pub next_token: usize,
}

impl ClientTable {
    /// Well-formed: tokens start above the listener's reserved 0, stay
    /// below the next free one, and no two connections share a token.
    pub open spec fn wf(&self) -> bool {
        &&& self.next_token >= 1
        &&& forall|i: int|
            0 <= i < self.clients@.len() ==> 1 <= (#[trigger] self.clients@[i]).token
                < self.next_token
        &&& forall|i: int, j: int|
            0 <= i < j < self.clients@.len() ==> (#[trigger] self.clients@[i]).token != (
            #[trigger] self.clients@[j]).token
    }

    /// An empty table; the first client will get token 1.
    pub fn new() -> (t: ClientTable)
        ensures
            t.wf(),
            t.clients@.len() == 0,
            t.next_token == 1,
    {
        ClientTable { clients: Vec::new(), next_token: 1 }
    }

    /// Admits one accepted connection: it gets the next token and an
    /// empty buffer; every existing entry stays as it was.
    pub fn accept_client(&mut self) -> (tok: usize)
        requires
            old(self).wf(),
            old(self).next_token < usize::MAX,
        ensures
            final(self).wf(),
            tok == old(self).next_token,
            final(self).next_token == old(self).next_token + 1,
            final(self).clients@.len() == old(self).clients@.len() + 1,
            forall|j: int|
                0 <= j < old(self).clients@.len() ==> #[trigger] final(self).clients@[j] == old(self).clients@[j],
            final(self).clients@.last().token == tok,
            final(self).clients@.last().buf@.len() == 0,
    {
        let tok = self.next_token;
        self.next_token = self.next_token + 1;
        self.clients.push(ClientConn { token: tok, buf: Vec::new() });
        tok
    }

    /// Finds the connection holding a token.
    pub fn find_client(&self, token: usize) -> (r: Option<usize>)
        ensures
            match r {
                Some(i) => i < self.clients@.len() && self.clients@[i as int].token == token,
                None => forall|j: int|
                    0 <= j < self.clients@.len() ==> (#[trigger] self.clients@[j]).token != token,
            },
    {
        let mut i: usize = 0;
        while i < self.clients.len()
            invariant
                i <= self.clients@.len(),
                forall|j: int|
                    0 <= j < i ==> (#[trigger] self.clients@[j]).token != token,
            decreases self.clients@.len() - i,
        {
            if self.clients[i].token == token {
                return Some(i);
            }
            i = i + 1;
        }
        None
    }

    /// Takes bytes the client at `i` sent: they join its buffer, and every
    /// complete frame at the front is cut off. Returns the payloads of
    /// those frames, in arrival order, and whether the connection may
    /// live on — false means an oversized length header, a protocol
    /// violation, and the caller drops the client. No other entry of the
    /// table is touched, whatever this client sent.
    pub fn on_client_data(&mut self, i: usize, data: &[u8]) -> (out: (Vec<Vec<u8>>, bool))
        requires
            old(self).wf(),
            i < old(self).clients@.len(),
        ensures
            final(self).wf(),
            final(self).clients@.len() == old(self).clients@.len(),
            final(self).next_token == old(self).next_token,
            forall|j: int|
                0 <= j < old(self).clients@.len() && j != i ==> #[trigger] final(self).clients@[j] == old(self).clients@[j],
            final(self).clients@[i as int].token == old(self).clients@[i as int].token,
            out.0.deep_view() == drain_payloads(old(self).clients@[i as int].buf@ + data@),
            out.1 == drain_ok(old(self).clients@[i as int].buf@ + data@),
            final(self).clients@[i as int].buf@ == drain_rest(
                old(self).clients@[i as int].buf@ + data@,
            ),
    {
        let mut conn = self.clients.remove(i);
        conn.buf.extend_from_slice(data);
        let ghost whole = conn.buf@;
        let mut payloads: Vec<Vec<u8>> = Vec::new();
        let mut keep = true;
        proof {
            assert(whole == old(self).clients@[i as int].buf@ + data@);
            assert(payloads.deep_view() =~~= Seq::<Seq<u8>>::empty());
            assert(Seq::<Seq<u8>>::empty() + drain_payloads(whole) =~~= drain_payloads(whole));
        }
        loop
            invariant_except_break
                keep,
                conn.token == old(self).clients@[i as int].token,
                drain_payloads(whole) == payloads.deep_view() + drain_payloads(conn.buf@),
                drain_rest(whole) == drain_rest(conn.buf@),
                drain_ok(whole) == drain_ok(conn.buf@),
            ensures
                conn.token == old(self).clients@[i as int].token,
                payloads.deep_view() == drain_payloads(whole),
                keep == drain_ok(whole),
                conn.buf@ == drain_rest(whole),
            decreases conn.buf@.len(),
        {
            let step = take_frame(&mut conn.buf);
            match step {
                FrameStep::NeedMore => {
                    proof {
                        assert(drain_payloads(conn.buf@) =~~= Seq::<Seq<u8>>::empty());
                        assert(payloads.deep_view() + Seq::<Seq<u8>>::empty()
                            =~~= payloads.deep_view());
                    }
                    break ;
                },
                FrameStep::Violation => {
                    keep = false;
                    proof {
                        assert(drain_payloads(conn.buf@) =~~= Seq::<Seq<u8>>::empty());
                        assert(payloads.deep_view() + Seq::<Seq<u8>>::empty()
                            =~~= payloads.deep_view());
                    }
                    break ;
                },
                FrameStep::Got(p) => {
                    let ghost pre = payloads.deep_view();
                    payloads.push(p);
                    proof {
                        assert(payloads.deep_view() =~~= pre.push(p@));
                        assert(pre + (seq![p@] + drain_payloads(conn.buf@)) =~~= pre.push(p@)
                            + drain_payloads(conn.buf@));
                    }
                },
            }
        }
        self.clients.insert(i, conn);
        proof {
            let cur = self.clients@;
            assert(cur =~= old(self).clients@.update(i as int, cur[i as int]));
            assert(forall|j: int|
                0 <= j < cur.len() ==> (#[trigger] cur[j]).token
                    == old(self).clients@[j].token);
        }
        (payloads, keep)
    }

    /// Drops the client at `i`: its entry leaves the table and every
    /// other connection keeps its token and buffer — one client's fate
    /// never touches another's stream.
    pub fn drop_client(&mut self, i: usize)
        requires
            old(self).wf(),
            i < old(self).clients@.len(),
        ensures
            final(self).wf(),
            final(self).next_token == old(self).next_token,
            final(self).clients@ == old(self).clients@.remove(i as int),
            final(self).clients@.len() == old(self).clients@.len() - 1,
            forall|j: int| 0 <= j < i ==> #[trigger] final(self).clients@[j] == old(self).clients@[j],
            forall|j: int|
                i < j < old(self).clients@.len() ==> #[trigger] final(self).clients@[j - 1] == old(self).clients@[j],
    {
        self.clients.remove(i);
    }
}

} // verus!
