//! The daemon's manager: one readiness-driven dispatcher over the listening
//! local-IPC endpoint, the admitted clients' sockets, one UDP socket per
//! remote destination, and the termination signal.
//!
//! The manager owns the token allocator and the map from destination key
//! (the literal address string a client sent) to its one shared
//! `Connection`: at most one connection exists per destination at any
//! instant, and every live poller token — the signal's, the listener's,
//! each connection's and each client's — is a distinct token currently
//! allocated. The poll loop itself, the sockets and the signal source live
//! outside the library and feed every event in as plain values.

use vstd::prelude::*;

verus! {

use vstd::std_specs::vec::vec_index_mut;
use vstd::string::StringSliceAdditionalSpecFns;
use crate::connection::Connection;
use crate::connection::ConnEvent;
use crate::connection::DatagramReplies;
use crate::connection::DeliveryPlan;
use crate::connection::ClientEventResult;
use crate::tokens::TokenManager;

/// Whether connection `c` holds poller token `t`: as its UDP socket's
/// token, or as the token of one of its clients' sockets.
pub open spec fn conn_uses(c: Connection, t: u64) -> bool {
    t == c.token || c.owns_token(t)
}

/// Whether token `t` is held by one of `gone`'s first `k` clients, or is
/// `gone`'s own UDP token: the tokens released so far while a collected
/// connection's handles are returned to the allocator.
pub open spec fn gone_token_upto(gone: Connection, k: int, t: u64) -> bool {
    t == gone.token || (exists|x: int| 0 <= x < k && gone.clients@[x].1.token == t)
}

/// Whether some connection in the list that the transport has reported
/// closed holds token `t`.
pub open spec fn closed_conn_uses(s: Seq<(Vec<u8>, Connection)>, t: u64) -> bool {
    exists|i: int| 0 <= i < s.len() && s[i].1.state is Closed && conn_uses(s[i].1, t)
}

/// How the manager dispatches a ready poller token: the signal source (set
/// the terminate flag), the listening endpoint (accept a newcomer), or
/// anything else (offer it to every connection).
#[derive(Debug, PartialEq, Eq, Clone, Copy)]
pub enum Dispatch {
    Signal,
    Listener,
    ConnectionEvent,
}

/// The manager: the token allocator, the connections keyed by destination,
/// the two fixed tokens of the signal source and the listening endpoint,
/// and the terminate flag a signal sets.
pub struct Manager {
    pub tokens: TokenManager,
    pub connections: Vec<(Vec<u8>, Connection)>,
    pub signal_token: u64,
    pub listener_token: u64,
    pub terminate: bool,
}

impl Manager {
    /// The manager's invariants: destination keys are unique (at most one
    /// connection per destination); every connection is well formed; every
    /// live token is currently allocated and differs from the signal's and
    /// the listener's; and no token is held by two connections.
    pub open spec fn wf(self) -> bool {
        &&& self.tokens.wf()
        &&& self.signal_token != self.listener_token
        &&& self.tokens.is_used(self.signal_token)
        &&& self.tokens.is_used(self.listener_token)
        &&& forall|i: int, j: int|
            0 <= i < j < self.connections@.len() ==> self.connections@[i].0@
                != self.connections@[j].0@
        &&& forall|i: int|
            0 <= i < self.connections@.len() ==> (#[trigger] self.connections@[i].1).wf()
        &&& forall|i: int, t: u64|
            0 <= i < self.connections@.len() && #[trigger] conn_uses(self.connections@[i].1, t)
                ==> self.tokens.is_used(t) && t != self.signal_token && t != self.listener_token
        &&& forall|i: int, j: int, t: u64|
            0 <= i < j < self.connections@.len() ==> !(#[trigger] conn_uses(
                self.connections@[i].1,
                t,
            ) && #[trigger] conn_uses(self.connections@[j].1, t))
    }

    /// Whether a connection exists for destination key `key`.
    pub open spec fn has_conn(self, key: Seq<u8>) -> bool {
        exists|i: int| 0 <= i < self.connections@.len() && self.connections@[i].0@ == key
    }

    /// The position of destination `key`'s connection.
    pub open spec fn conn_index(self, key: Seq<u8>) -> int {
        choose|i: int| 0 <= i < self.connections@.len() && self.connections@[i].0@ == key
    }

    /// With unique keys, any position holding `key` is the position the
    /// spec functions name.
    pub proof fn lemma_conn_at(self, i: int)
        requires
            self.wf(),
            0 <= i < self.connections@.len(),
        ensures
            self.has_conn(self.connections@[i].0@),
            self.conn_index(self.connections@[i].0@) == i,
    {
        let key = self.connections@[i].0@;
        assert(self.has_conn(key));
        let j = self.conn_index(key);
        if i < j {
            assert(self.connections@[i].0@ != self.connections@[j].0@);
        } else if j < i {
            assert(self.connections@[j].0@ != self.connections@[i].0@);
        }
    }

    /// A fresh manager: the signal source's token and the listening
    /// endpoint's token are the first two allocated (0 and 1), no
    /// connections exist, and no termination signal has been seen.
    pub fn new() -> (m: Manager)
        ensures
            m.wf(),
            m.connections@.len() == 0,
            !m.terminate,
            m.signal_token == 0,
            m.listener_token == 1,
            m.tokens.next == 2,
    {
        let mut tokens = TokenManager::new();
        let signal_token = tokens.allocate_token();
        let listener_token = tokens.allocate_token();
        Manager { tokens, connections: Vec::new(), signal_token, listener_token, terminate: false }
    }

    /// A termination signal arrived: the loop must exit after this batch.
    pub fn observe_signal(&mut self)
        requires
            old(self).wf(),
        ensures
            final(self).wf(),
            final(self).terminate,
            final(self).tokens == old(self).tokens,
            final(self).connections == old(self).connections,
            final(self).signal_token == old(self).signal_token,
            final(self).listener_token == old(self).listener_token,
    {
        self.terminate = true;
    }

    /// Dispatches one ready poller token: the signal source, the listening
    /// endpoint, or an event to offer to every connection.
    pub fn classify(&self, t: u64) -> (r: Dispatch)
        ensures
            r is Signal <==> t == self.signal_token,
            r is Listener <==> (t != self.signal_token && t == self.listener_token),
            r is ConnectionEvent <==> (t != self.signal_token && t != self.listener_token),
    {
        if t == self.signal_token {
            Dispatch::Signal
        } else if t == self.listener_token {
            Dispatch::Listener
        } else {
            Dispatch::ConnectionEvent
        }
    }

    /// The number of connections currently open, one per destination.
    pub fn connection_count(&self) -> (n: usize)
        ensures
            n == self.connections@.len(),
    {
        self.connections.len()
    }

    /// The position of destination `address`'s connection, if one exists.
    pub fn find_connection(&self, address: &[u8]) -> (r: Option<usize>)
        requires
            self.wf(),
        ensures
            r is Some <==> self.has_conn(address@),
            r matches Some(i) ==> i == self.conn_index(address@) && self.connections@[i as int].0@
                == address@,
    {
        let n = self.connections.len();
        let mut i: usize = 0;
        while i < n
            invariant
                self.wf(),
                n == self.connections@.len(),
                i <= n,
                forall|k: int| 0 <= k < i ==> self.connections@[k].0@ != address@,
            decreases n - i,
        {
            if crate::connection::bytes_eq(self.connections[i].0.as_slice(), address) {
                proof {
                    self.lemma_conn_at(i as int);
                }
                return Some(i);
            }
            i = i + 1;
        }
        proof {
            if self.has_conn(address@) {
                let j = self.conn_index(address@);
                assert(self.connections@[j].0@ == address@);
            }
        }
        None
    }

    /// Whether a connection is already open for destination `address`.
    pub fn has_connection(&self, address: &[u8]) -> (b: bool)
        requires
            self.wf(),
        ensures
            b == self.has_conn(address@),
    {
        self.find_connection(address).is_some()
    }

    /// How connection `i` sees a ready poller token.
    pub fn conn_match_token(&self, i: usize, t: u64) -> (r: ConnEvent)
        requires
            self.wf(),
            i < self.connections@.len(),
        ensures
            r is Udp <==> t == self.connections@[i as int].1.token,
            r matches ConnEvent::ClientStream(sid) ==> self.connections@[i as int].1.has_client(
                sid,
            ) && self.connections@[i as int].1.client_at(sid).token == t,
            r is NotMine <==> t != self.connections@[i as int].1.token
                && !self.connections@[i as int].1.owns_token(t),
    {
        self.connections[i].1.match_token(t)
    }

    /// Whether connection `i` has been reported closed.
    pub fn conn_is_closed(&self, i: usize) -> (r: bool)
        requires
            i < self.connections@.len(),
        ensures
            r == (self.connections@[i as int].1.state is Closed),
    {
        self.connections[i].1.is_closed()
    }

    /// Forwards a drain's transport reports to connection `i`; nothing else
    /// changes, and the connection steps exactly as `datagram_step` says.
    pub fn conn_process_datagram(
        &mut self,
        i: usize,
        closed: bool,
        peer_error: bool,
        established: bool,
    ) -> (r: DatagramReplies)
        requires
            old(self).wf(),
            i < old(self).connections@.len(),
        ensures
            final(self).wf(),
            final(self).tokens == old(self).tokens,
            final(self).signal_token == old(self).signal_token,
            final(self).listener_token == old(self).listener_token,
            final(self).terminate == old(self).terminate,
            final(self).connections@.len() == old(self).connections@.len(),
            forall|j: int|
                0 <= j < old(self).connections@.len() && j != i ==> final(self).connections@[j]
                    == old(self).connections@[j],
            final(self).connections@[i as int].0 == old(self).connections@[i as int].0,
            crate::connection::datagram_step(
                old(self).connections@[i as int].1,
                final(self).connections@[i as int].1,
                closed,
                peer_error,
                established,
                r,
            ),
    {
        let ghost pre = *self;
        let r = {
            let elem = vec_index_mut(&mut self.connections, i);
            elem.1.process_datagram(closed, peer_error, established)
        };
        proof {
            assert forall|t: u64|
                #[trigger] conn_uses(self.connections@[i as int].1, t) implies conn_uses(
                pre.connections@[i as int].1,
                t,
            ) by {}
            lemma_manager_conn_update(pre, *self, i as int);
        }
        r
    }

    /// Forwards bytes the transport reported readable on one of connection
    /// `i`'s streams; they join that stream's receive buffer in arrival
    /// order and every other stream's buffer is untouched.
    pub fn conn_accept_stream_data(&mut self, i: usize, stream_id: u64, data: &[u8])
        requires
            old(self).wf(),
            i < old(self).connections@.len(),
        ensures
            final(self).wf(),
            final(self).tokens == old(self).tokens,
            final(self).signal_token == old(self).signal_token,
            final(self).listener_token == old(self).listener_token,
            final(self).terminate == old(self).terminate,
            final(self).connections@.len() == old(self).connections@.len(),
            forall|j: int|
                0 <= j < old(self).connections@.len() && j != i ==> final(self).connections@[j]
                    == old(self).connections@[j],
            final(self).connections@[i as int].0 == old(self).connections@[i as int].0,
            final(self).connections@[i as int].1.clients == old(self).connections@[i as int].1.clients,
            final(self).connections@[i as int].1.state == old(self).connections@[i as int].1.state,
            final(self).connections@[i as int].1.buffered(stream_id) == old(self).connections@[i as int].1.buffered(stream_id) + data@,
            forall|s: u64|
                s != stream_id ==> final(self).connections@[i as int].1.buffered(s) == old(self).connections@[i as int].1.buffered(s),
    {
        let ghost pre = *self;
        {
            let elem = vec_index_mut(&mut self.connections, i);
            elem.1.accept_stream_data(stream_id, data);
        }
        proof {
            assert forall|t: u64|
                #[trigger] conn_uses(self.connections@[i as int].1, t) implies conn_uses(
                pre.connections@[i as int].1,
                t,
            ) by {}
            lemma_manager_conn_update(pre, *self, i as int);
        }
    }

    /// Removes the first `n` bytes of a stream's receive buffer on
    /// connection `i` once its client's socket has taken them.
    pub fn conn_confirm_delivery(&mut self, i: usize, stream_id: u64, n: usize)
        requires
            old(self).wf(),
            i < old(self).connections@.len(),
            n <= old(self).connections@[i as int].1.buffered(stream_id).len(),
        ensures
            final(self).wf(),
            final(self).tokens == old(self).tokens,
            final(self).signal_token == old(self).signal_token,
            final(self).listener_token == old(self).listener_token,
            final(self).terminate == old(self).terminate,
            final(self).connections@.len() == old(self).connections@.len(),
            forall|j: int|
                0 <= j < old(self).connections@.len() && j != i ==> final(self).connections@[j]
                    == old(self).connections@[j],
            final(self).connections@[i as int].0 == old(self).connections@[i as int].0,
            final(self).connections@[i as int].1.clients == old(self).connections@[i as int].1.clients,
            final(self).connections@[i as int].1.state == old(self).connections@[i as int].1.state,
            final(self).connections@[i as int].1.buffered(stream_id) == old(self).connections@[i as int].1.buffered(stream_id).skip(n as int),
            forall|s: u64|
                s != stream_id ==> final(self).connections@[i as int].1.buffered(s) == old(self).connections@[i as int].1.buffered(s),
    {
        let ghost pre = *self;
        {
            let elem = vec_index_mut(&mut self.connections, i);
            elem.1.confirm_delivery(stream_id, n);
        }
        proof {
            assert forall|t: u64|
                #[trigger] conn_uses(self.connections@[i as int].1, t) implies conn_uses(
                pre.connections@[i as int].1,
                t,
            ) by {}
            lemma_manager_conn_update(pre, *self, i as int);
        }
    }

    /// What delivering a stream's buffer on connection `i` would mean right
    /// now.
    pub fn conn_pending_delivery(&self, i: usize, stream_id: u64) -> (r: DeliveryPlan)
        requires
            self.wf(),
            i < self.connections@.len(),
        ensures
            r is NoClient <==> !self.connections@[i as int].1.has_client(stream_id),
            r is Overflow <==> self.connections@[i as int].1.has_client(stream_id)
                && self.connections@[i as int].1.buffered(stream_id).len() > u32::MAX,
            r matches DeliveryPlan::Overflow(t, f) ==> t == self.connections@[i as int].1.client_at(
                stream_id,
            ).token && f@ == crate::frame::spec_erro_frame(crate::connection::overflow_text()),
            r is Frame <==> self.connections@[i as int].1.has_client(stream_id)
                && self.connections@[i as int].1.buffered(stream_id).len() <= u32::MAX,
            r matches DeliveryPlan::Frame(t, f) ==> t == self.connections@[i as int].1.client_at(
                stream_id,
            ).token && f@ == crate::frame::spec_data_frame(
                self.connections@[i as int].1.buffered(stream_id),
            ),
    {
        self.connections[i].1.pending_delivery(stream_id)
    }

    /// Forwards one client socket's read to connection `i`; the connection
    /// and the token allocator step exactly as `client_event_step` says: a
    /// departed or misbehaving client's slot and token are released within
    /// this call, and the connection's state is untouched.
    pub fn conn_process_events(&mut self, i: usize, stream_id: u64, input: &[u8]) -> (r:
        ClientEventResult)
        requires
            old(self).wf(),
            i < old(self).connections@.len(),
        ensures
            final(self).wf(),
            final(self).signal_token == old(self).signal_token,
            final(self).listener_token == old(self).listener_token,
            final(self).terminate == old(self).terminate,
            final(self).connections@.len() == old(self).connections@.len(),
            forall|j: int|
                0 <= j < old(self).connections@.len() && j != i ==> final(self).connections@[j]
                    == old(self).connections@[j],
            final(self).connections@[i as int].0 == old(self).connections@[i as int].0,
            crate::connection::client_event_step(
                old(self).connections@[i as int].1,
                final(self).connections@[i as int].1,
                old(self).tokens,
                final(self).tokens,
                stream_id,
                input@,
                r,
            ),
    {
        let ghost pre = *self;
        let r = {
            let conn = vec_index_mut(&mut self.connections, i);
            conn.1.process_events(stream_id, input, &mut self.tokens)
        };
        proof {
            let pc = pre.connections@[i as int].1;
            let nc = self.connections@[i as int].1;
            if pc.has_client(stream_id) && (crate::client::msg_departs(input@)
                || crate::client::msg_error(input@) is Some) {
                let idx = pc.client_index(stream_id);
                let freed = pc.client_at(stream_id).token;
                assert(0 <= idx < pc.clients@.len() && pc.clients@[idx].0 == stream_id);
                assert(conn_uses(pc, freed));
                assert forall|t: u64| #[trigger] conn_uses(nc, t) implies conn_uses(pc, t) && t
                    != freed by {
                    if t == nc.token {
                    } else {
                        let k = choose|k: int|
                            0 <= k < nc.clients@.len() && nc.clients@[k].1.token == t;
                        if k < idx {
                            assert(pc.clients@[k].1.token == t);
                            if t == freed {
                                assert(pc.clients@[k].1.token != pc.clients@[idx].1.token);
                            }
                        } else {
                            assert(pc.clients@[k + 1].1.token == t);
                            if t == freed {
                                assert(pc.clients@[idx].1.token != pc.clients@[k + 1].1.token);
                            }
                        }
                        assert(pc.owns_token(t));
                    }
                }
                lemma_manager_conn_update_freed(pre, *self, i as int, freed);
            } else {
                assert forall|t: u64| #[trigger] conn_uses(nc, t) implies conn_uses(pc, t) by {
                    if t != nc.token {
                        let k = choose|k: int|
                            0 <= k < nc.clients@.len() && nc.clients@[k].1.token == t;
                        assert(pc.clients@[k].1.token == t);
                        assert(pc.owns_token(t));
                    }
                }
                lemma_manager_conn_update(pre, *self, i as int);
            }
        }
        r
    }

    /// Admission control for one incoming socket, deciding from its
    /// opening bytes.
    ///
    /// The bytes must parse as `CONN <address> <app_proto>`; each parse
    /// error earns its own ERRO reply and nothing changes. A destination
    /// without a connection is reported back for the caller to construct
    /// one: no state changes yet, so a failed construction leaves no trace.
    /// An existing connection admission-checks the newcomer itself: a
    /// protocol mismatch (or exhausted stream ids) earns exactly one ERRO
    /// frame and leaves every connection as it was — in particular no new
    /// QUIC handshake; a match attaches the client under a fresh stream id
    /// and a freshly allocated poller token, again with no new connection,
    /// and the OKOK frame is owed at once exactly when the connection is
    /// already established.
    pub fn accept_incoming(&mut self, buf: &[u8]) -> (r: AdmitOutcome)
        requires
            old(self).wf(),
            old(self).tokens.next < u64::MAX,
        ensures
            final(self).wf(),
            final(self).signal_token == old(self).signal_token,
            final(self).listener_token == old(self).listener_token,
            final(self).terminate == old(self).terminate,
            ({
                let f = crate::control::fields(buf@);
                f.len() == 0 || f[0] != crate::frame::conn_magic()
            }) ==> (r matches AdmitOutcome::Reply(fr) && fr@ == crate::frame::spec_erro_frame(
                expected_conn_text(),
            ) && *final(self) == *old(self)),
            ({
                let f = crate::control::fields(buf@);
                f.len() > 0 && f[0] == crate::frame::conn_magic() && f.len() < 3
            }) ==> (r matches AdmitOutcome::Reply(fr) && fr@ == crate::frame::spec_erro_frame(
                malformed_conn_text(),
            ) && *final(self) == *old(self)),
            ({
                let f = crate::control::fields(buf@);
                f.len() >= 3 && f[0] == crate::frame::conn_magic() && !old(self).has_conn(f[1])
            }) ==> (r matches AdmitOutcome::NeedConnection(q) && q.address@
                == crate::control::fields(buf@)[1] && q.app_proto@ == crate::control::fields(
                buf@,
            )[2] && *final(self) == *old(self)),
            ({
                let f = crate::control::fields(buf@);
                f.len() >= 3 && f[0] == crate::frame::conn_magic() && old(self).has_conn(f[1])
            }) ==> ({
                let f = crate::control::fields(buf@);
                let ci = old(self).conn_index(f[1]);
                let c = old(self).connections@[ci].1;
                &&& final(self).connections@.len() == old(self).connections@.len()
                &&& forall|j: int|
                    0 <= j < old(self).connections@.len() && j != ci ==> final(self).connections@[j] == old(self).connections@[j]
                &&& final(self).connections@[ci].0 == old(self).connections@[ci].0
                &&& (f[2] != c.app_proto@ ==> (r matches AdmitOutcome::Rejected(fr) && fr@
                    == crate::frame::spec_erro_frame(crate::connection::mismatch_text()) && final(self).connections@ == old(self).connections@ && (forall|u: u64|
                    final(self).tokens.is_used(u) == old(self).tokens.is_used(u))))
                &&& (f[2] == c.app_proto@ && c.next_stream_id > u64::MAX - 4 ==> (
                r matches AdmitOutcome::Rejected(fr) && fr@ == crate::frame::spec_erro_frame(
                    crate::connection::exhausted_text(),
                ) && final(self).connections@ == old(self).connections@ && (forall|u: u64|
                    final(self).tokens.is_used(u) == old(self).tokens.is_used(u))))
                &&& (f[2] == c.app_proto@ && c.next_stream_id <= u64::MAX - 4 ==> (
                r matches AdmitOutcome::Attached { stream_id, client_token, reply }
                    && stream_id == c.next_stream_id
                    && !old(self).tokens.is_used(client_token)
                    && final(self).tokens.is_used(client_token)
                    && (forall|u: u64|
                        u != client_token ==> final(self).tokens.is_used(u) == old(self).tokens.is_used(u))
                    && final(self).connections@[ci].1.clients@.len() == c.clients@.len() + 1
                    && final(self).connections@[ci].1.clients@.last().0 == stream_id
                    && final(self).connections@[ci].1.clients@.last().1.token == client_token
                    && final(self).connections@[ci].1.clients@.last().1.readbuf@.len() == 0
                    && (forall|k: int|
                        0 <= k < c.clients@.len() ==> final(self).connections@[ci].1.clients@[k]
                            == c.clients@[k])
                    && final(self).connections@[ci].1.state == c.state
                    && final(self).connections@[ci].1.next_stream_id == c.next_stream_id + 4
                    && final(self).connections@[ci].1.received_data == c.received_data
                    && (c.state is Established ==> (reply matches Some(fr2) && fr2@
                    == crate::frame::okok_magic()))
                    && (!(c.state is Established) ==> reply is None)))
            }),
    {
        let parsed = crate::control::parse_conn(buf);
        let q = match parsed {
            Err(crate::control::ControlError::NotConn) => {
                return AdmitOutcome::Reply(crate::frame::encode_erro_frame(
                    "Expected CONN message",
                ));
            },
            Err(crate::control::ControlError::TooFewFields) => {
                return AdmitOutcome::Reply(crate::frame::encode_erro_frame(
                    "Malformed CONN message",
                ));
            },
            Ok(q) => q,
        };
        let found = self.find_connection(q.address.as_slice());
        let ci = match found {
            None => {
                return AdmitOutcome::NeedConnection(q);
            },
            Some(ci) => ci,
        };
        let t = self.tokens.allocate_token();
        let ghost mid = *self;
        proof {
            let pc = mid.connections@[ci as int].1;
            assert(conn_uses(pc, pc.token));
            assert(t != pc.token);
            assert forall|k: int| 0 <= k < pc.clients@.len() implies (
            #[trigger] pc.clients@[k].1).token != t by {
                assert(pc.owns_token(pc.clients@[k].1.token));
                assert(conn_uses(pc, pc.clients@[k].1.token));
            }
        }
        let outcome = {
            let conn = vec_index_mut(&mut self.connections, ci);
            conn.1.add_client(q.app_proto.as_slice(), t)
        };
        match outcome {
            crate::connection::AddClientOutcome::Mismatch(f) => {
                self.tokens.free_token(t);
                proof {
                    assert(self.connections@ =~= old(self).connections@);
                    assert forall|u: u64|
                        self.tokens.is_used(u) == old(self).tokens.is_used(u) by {}
                    lemma_manager_same_uses_views(*old(self), *self);
                }
                AdmitOutcome::Rejected(f)
            },
            crate::connection::AddClientOutcome::IdsExhausted(f) => {
                self.tokens.free_token(t);
                proof {
                    assert(self.connections@ =~= old(self).connections@);
                    assert forall|u: u64|
                        self.tokens.is_used(u) == old(self).tokens.is_used(u) by {}
                    lemma_manager_same_uses_views(*old(self), *self);
                }
                AdmitOutcome::Rejected(f)
            },
            crate::connection::AddClientOutcome::Admitted(sid, reply) => {
                proof {
                    let pc = mid.connections@[ci as int].1;
                    let nc = self.connections@[ci as int].1;
                    assert forall|u: u64| #[trigger] conn_uses(nc, u) implies (conn_uses(pc, u)
                        || u == t) by {
                        if u != nc.token {
                            let k = choose|k: int|
                                0 <= k < nc.clients@.len() && nc.clients@[k].1.token == u;
                            if k < nc.clients@.len() - 1 {
                                assert(pc.clients@[k].1.token == u);
                                assert(pc.owns_token(u));
                            }
                        }
                    }
                    lemma_manager_conn_update_grown(*old(self), *self, ci as int, t);
                }
                AdmitOutcome::Attached { stream_id: sid, client_token: t, reply }
            },
        }
    }

    /// Installs the connection just constructed for a destination that had
    /// none, and attaches its first client: the connection's UDP socket
    /// token, the first stream id, and the client socket's token are all
    /// freshly allocated and returned for the caller to register. The new
    /// connection starts connecting, so no reply is owed yet.
    pub fn install_connection(&mut self, address: &[u8], app_proto: &[u8]) -> (r: Installed)
        requires
            old(self).wf(),
            !old(self).has_conn(address@),
            old(self).tokens.next < u64::MAX - 1,
        ensures
            final(self).wf(),
            final(self).signal_token == old(self).signal_token,
            final(self).listener_token == old(self).listener_token,
            final(self).terminate == old(self).terminate,
            final(self).connections@.len() == old(self).connections@.len() + 1,
            forall|j: int|
                0 <= j < old(self).connections@.len() ==> final(self).connections@[j] == old(self).connections@[j],
            final(self).connections@.last().0@ == address@,
            final(self).connections@.last().1.wf(),
            final(self).connections@.last().1.app_proto@ == app_proto@,
            final(self).connections@.last().1.token == r.conn_token,
            final(self).connections@.last().1.state is Connecting,
            final(self).connections@.last().1.next_stream_id == 8,
            final(self).connections@.last().1.clients@.len() == 1,
            final(self).connections@.last().1.clients@[0].0 == r.stream_id,
            final(self).connections@.last().1.clients@[0].1.token == r.client_token,
            final(self).connections@.last().1.clients@[0].1.readbuf@.len() == 0,
            final(self).connections@.last().1.received_data@.len() == 0,
            r.stream_id == 4,
            r.conn_token != r.client_token,
            !old(self).tokens.is_used(r.conn_token),
            !old(self).tokens.is_used(r.client_token),
            final(self).tokens.is_used(r.conn_token),
            final(self).tokens.is_used(r.client_token),
            forall|u: u64|
                u != r.conn_token && u != r.client_token ==> final(self).tokens.is_used(u) == old(self).tokens.is_used(u),
    {
        let conn_token = self.tokens.allocate_token();
        let client_token = self.tokens.allocate_token();
        let mut conn = Connection::new(vstd::slice::slice_to_vec(app_proto), conn_token);
        let outcome = conn.add_client(app_proto, client_token);
        match outcome {
            crate::connection::AddClientOutcome::Admitted(sid, _reply) => {
                self.connections.push((vstd::slice::slice_to_vec(address), conn));
                proof {
                    assert forall|u: u64| #[trigger] conn_uses(conn, u) implies (u == conn_token
                        || u == client_token) by {
                        if u != conn.token {
                            let k = choose|k: int|
                                0 <= k < conn.clients@.len() && conn.clients@[k].1.token == u;
                            assert(k == 0);
                        }
                    }
                    lemma_manager_conn_push(*old(self), *self, conn_token, client_token);
                }
                Installed { conn_token, stream_id: sid, client_token }
            },
            crate::connection::AddClientOutcome::Mismatch(_) => {
                proof {
                    assert(false);
                }
                vstd::pervasive::unreached()
            },
            crate::connection::AddClientOutcome::IdsExhausted(_) => {
                proof {
                    assert(false);
                }
                vstd::pervasive::unreached()
            },
        }
    }


    /// Returns every token a collected connection held — its UDP socket's
    /// and each of its clients' — to the allocator: on drop, a live token
    /// is released. The connection must already be out of the list, so no
    /// live owner shares a token with it.
    fn release_connection_tokens(&mut self, gone: &Connection)
        requires
            old(self).wf(),
            forall|j: int, u: u64|
                0 <= j < old(self).connections@.len() && #[trigger] conn_uses(
                    old(self).connections@[j].1,
                    u,
                ) ==> !conn_uses(*gone, u),
            forall|u: u64|
                #[trigger] conn_uses(*gone, u) ==> u != old(self).signal_token && u != old(
                    self,
                ).listener_token,
        ensures
            final(self).wf(),
            final(self).connections == old(self).connections,
            final(self).signal_token == old(self).signal_token,
            final(self).listener_token == old(self).listener_token,
            final(self).terminate == old(self).terminate,
            final(self).tokens.next == old(self).tokens.next,
            forall|u: u64| #[trigger] conn_uses(*gone, u) ==> !final(self).tokens.is_used(u),
            forall|u: u64|
                !conn_uses(*gone, u) ==> final(self).tokens.is_used(u) == old(
                    self,
                ).tokens.is_used(u),
    {
        let t0 = gone.get_token();
        self.tokens.free_token(t0);
        proof {
            assert(conn_uses(*gone, t0));
            assert(self.signal_token != t0 && self.listener_token != t0);
            assert forall|j: int, u: u64|
                0 <= j < self.connections@.len() && #[trigger] conn_uses(
                    self.connections@[j].1,
                    u,
                ) implies self.tokens.is_used(u) && u != self.signal_token && u
                != self.listener_token by {
                assert(!conn_uses(*gone, u));
                assert(u != t0);
            }
        }
        let n = gone.clients.len();
        let mut k: usize = 0;
        while k < n
            invariant
                old(self).wf(),
                forall|j: int, u: u64|
                    0 <= j < old(self).connections@.len() && #[trigger] conn_uses(
                        old(self).connections@[j].1,
                        u,
                    ) ==> !conn_uses(*gone, u),
                forall|u: u64|
                    #[trigger] conn_uses(*gone, u) ==> u != old(self).signal_token && u != old(
                        self,
                    ).listener_token,
                n == gone.clients@.len(),
                k <= n,
                self.wf(),
                self.connections == old(self).connections,
                self.signal_token == old(self).signal_token,
                self.listener_token == old(self).listener_token,
                self.terminate == old(self).terminate,
                self.tokens.next == old(self).tokens.next,
                forall|u: u64|
                    #[trigger] gone_token_upto(*gone, k as int, u) ==> !self.tokens.is_used(u),
                forall|u: u64|
                    !gone_token_upto(*gone, k as int, u) ==> self.tokens.is_used(u) == old(
                        self,
                    ).tokens.is_used(u),
            decreases n - k,
        {
            let tk = gone.clients[k].1.get_token();
            let ghost mid = *self;
            self.tokens.free_token(tk);
            proof {
                assert(gone.clients@[k as int].1.token == tk);
                assert(gone.owns_token(tk));
                assert(conn_uses(*gone, tk));
                assert(self.signal_token != tk && self.listener_token != tk);
                assert forall|j: int, u: u64|
                    0 <= j < self.connections@.len() && #[trigger] conn_uses(
                        self.connections@[j].1,
                        u,
                    ) implies self.tokens.is_used(u) && u != self.signal_token && u
                    != self.listener_token by {
                    assert(!conn_uses(*gone, u));
                    assert(u != tk);
                    assert(!gone_token_upto(*gone, k as int, u)) by {
                        if gone_token_upto(*gone, k as int, u) {
                            if u != gone.token {
                                let x = choose|x: int|
                                    0 <= x < k && gone.clients@[x].1.token == u;
                                assert(gone.owns_token(u));
                            }
                        }
                    }
                    assert(mid.tokens.is_used(u) == old(self).tokens.is_used(u));
                }
                assert forall|u: u64|
                    #[trigger] gone_token_upto(*gone, k as int + 1, u) implies !self.tokens.is_used(
                    u,
                ) by {
                    if u == tk {
                    } else {
                        assert(gone_token_upto(*gone, k as int, u)) by {
                            if u != gone.token {
                                let x = choose|x: int|
                                    0 <= x < k + 1 && gone.clients@[x].1.token == u;
                                assert(x < k);
                            }
                        }
                        assert(!mid.tokens.is_used(u));
                    }
                }
                assert forall|u: u64|
                    !gone_token_upto(*gone, k as int + 1, u) implies self.tokens.is_used(u) == old(
                    self,
                ).tokens.is_used(u) by {
                    assert(!gone_token_upto(*gone, k as int, u)) by {
                        if gone_token_upto(*gone, k as int, u) {
                            if u != gone.token {
                                let x = choose|x: int|
                                    0 <= x < k && gone.clients@[x].1.token == u;
                                assert(gone_token_upto(*gone, k as int + 1, u));
                            }
                        }
                    }
                    assert(u != tk) by {
                        if u == tk {
                            assert(gone_token_upto(*gone, k as int + 1, u));
                        }
                    }
                }
            }
            k = k + 1;
        }
        proof {
            assert forall|u: u64| #[trigger] conn_uses(*gone, u) implies !self.tokens.is_used(
                u,
            ) by {
                assert(gone_token_upto(*gone, n as int, u)) by {
                    if u != gone.token {
                        let x = choose|x: int|
                            0 <= x < gone.clients@.len() && gone.clients@[x].1.token == u;
                        assert(0 <= x < n && gone.clients@[x].1.token == u);
                    }
                }
            }
            assert forall|u: u64| !conn_uses(*gone, u) implies self.tokens.is_used(u) == old(
                self,
            ).tokens.is_used(u) by {
                assert(!gone_token_upto(*gone, n as int, u)) by {
                    if gone_token_upto(*gone, n as int, u) {
                        if u != gone.token {
                            let x = choose|x: int|
                                0 <= x < n && gone.clients@[x].1.token == u;
                            assert(gone.owns_token(u));
                        }
                        assert(conn_uses(*gone, u));
                    }
                }
            }
        }
    }

    /// Garbage-collects every connection whose state the transport
    /// reported closed, keeping the others in order, and returns every
    /// collected connection's tokens — its UDP socket's and each of its
    /// clients' — to the allocator: a dropped endpoint's token is no
    /// longer allocated. Run after every event batch.
    pub fn collect_closed(&mut self)
        requires
            old(self).wf(),
        ensures
            final(self).wf(),
            final(self).signal_token == old(self).signal_token,
            final(self).listener_token == old(self).listener_token,
            final(self).terminate == old(self).terminate,
            final(self).connections@ == open_conns(old(self).connections@),
            final(self).tokens.next == old(self).tokens.next,
            forall|u: u64|
                #[trigger] closed_conn_uses(old(self).connections@, u)
                    ==> !final(self).tokens.is_used(u),
            forall|u: u64|
                !closed_conn_uses(old(self).connections@, u) ==> final(self).tokens.is_used(u)
                    == old(self).tokens.is_used(u),
    {
        let ghost orig = self.connections@;
        let ghost processed: int = 0;
        let mut i: usize = 0;
        proof {
            lemma_open_conns_empty(orig.take(0));
            assert(orig.skip(0) =~= orig);
        }
        while i < self.connections.len()
            invariant
                old(self).wf(),
                orig == old(self).connections@,
                self.wf(),
                self.signal_token == old(self).signal_token,
                self.listener_token == old(self).listener_token,
                self.terminate == old(self).terminate,
                self.tokens.next == old(self).tokens.next,
                0 <= processed <= orig.len(),
                i == open_conns(orig.take(processed)).len(),
                self.connections@ == open_conns(orig.take(processed)) + orig.skip(processed),
                forall|u: u64|
                    #[trigger] closed_conn_uses(orig.take(processed), u) ==> !self.tokens.is_used(
                        u,
                    ),
                forall|u: u64|
                    !closed_conn_uses(orig.take(processed), u) ==> self.tokens.is_used(u) == old(
                        self,
                    ).tokens.is_used(u),
            decreases orig.len() - processed,
        {
            proof {
                assert(self.connections@[i as int] == orig.skip(processed)[0]);
                assert(orig.skip(processed)[0] == orig[processed]);
            }
            let closed_now = self.connections[i].1.is_closed();
            proof {
                let taken = orig.take(processed);
                let next_taken = orig.take(processed + 1);
                assert(next_taken =~= taken.push(orig[processed]));
                lemma_open_conns_push(taken, orig[processed]);
                assert(forall|k: int| 0 <= k < processed + 1 ==> next_taken[k] == orig[k]);
                assert(forall|k: int| 0 <= k < processed ==> taken[k] == orig[k]);
            }
            if closed_now {
                let ghost pre = *self;
                let pair = self.connections.remove(i);
                proof {
                    lemma_manager_conns_remove(pre, *self, i as int);
                    assert(pre.connections@.remove(i as int) =~= open_conns(
                        orig.take(processed + 1),
                    ) + orig.skip(processed + 1)) by {
                        assert(pre.connections@.remove(i as int) =~= open_conns(
                            orig.take(processed),
                        ) + orig.skip(processed).skip(1));
                        assert(orig.skip(processed).skip(1) =~= orig.skip(processed + 1));
                    }
                    assert(pair == pre.connections@[i as int]);
                    assert forall|j: int, u: u64|
                        0 <= j < self.connections@.len() && #[trigger] conn_uses(
                            self.connections@[j].1,
                            u,
                        ) implies !conn_uses(pair.1, u) by {
                        if j < i {
                            assert(self.connections@[j] == pre.connections@[j]);
                            assert(!(conn_uses(pre.connections@[j].1, u) && conn_uses(
                                pre.connections@[i as int].1,
                                u,
                            )));
                        } else {
                            assert(self.connections@[j] == pre.connections@[j + 1]);
                            assert(!(conn_uses(pre.connections@[i as int].1, u) && conn_uses(
                                pre.connections@[j + 1].1,
                                u,
                            )));
                        }
                    }
                    assert forall|u: u64| #[trigger] conn_uses(pair.1, u) implies u
                        != self.signal_token && u != self.listener_token by {
                        assert(conn_uses(pre.connections@[i as int].1, u));
                    }
                }
                let ghost before_free = *self;
                self.release_connection_tokens(&pair.1);
                proof {
                    let gone = pair.1;
                    assert(gone == orig[processed].1);
                    assert(gone.state is Closed);
                    assert forall|u: u64|
                        #[trigger] closed_conn_uses(orig.take(processed + 1), u) implies !self
                        .tokens.is_used(u) by {
                        let k = choose|k: int|
                            #![trigger conn_uses(orig.take(processed + 1)[k].1, u)]
                            0 <= k < orig.take(processed + 1).len() && orig.take(
                                processed + 1,
                            )[k].1.state is Closed && conn_uses(orig.take(processed + 1)[k].1, u);
                        if k < processed {
                            assert(orig.take(processed)[k] == orig[k]);
                            assert(closed_conn_uses(orig.take(processed), u));
                            assert(!before_free.tokens.is_used(u));
                            if conn_uses(gone, u) {
                            } else {
                                assert(self.tokens.is_used(u) == before_free.tokens.is_used(u));
                            }
                        } else {
                            assert(orig.take(processed + 1)[k] == orig[processed]);
                            assert(conn_uses(gone, u));
                        }
                    }
                    assert forall|u: u64|
                        !closed_conn_uses(orig.take(processed + 1), u) implies self.tokens.is_used(
                        u,
                    ) == old(self).tokens.is_used(u) by {
                        assert(!conn_uses(gone, u)) by {
                            if conn_uses(gone, u) {
                                assert(orig.take(processed + 1)[processed] == orig[processed]);
                                assert(closed_conn_uses(orig.take(processed + 1), u));
                            }
                        }
                        assert(!closed_conn_uses(orig.take(processed), u)) by {
                            if closed_conn_uses(orig.take(processed), u) {
                                let k = choose|k: int|
                                    #![trigger conn_uses(orig.take(processed)[k].1, u)]
                                    0 <= k < orig.take(processed).len() && orig.take(
                                        processed,
                                    )[k].1.state is Closed && conn_uses(orig.take(processed)[k].1, u);
                                assert(orig.take(processed + 1)[k] == orig.take(processed)[k]);
                                assert(closed_conn_uses(orig.take(processed + 1), u));
                            }
                        }
                        assert(self.tokens.is_used(u) == before_free.tokens.is_used(u));
                    }
                    processed = processed + 1;
                }
            } else {
                proof {
                    assert(self.connections@ =~= open_conns(orig.take(processed + 1)) + orig.skip(
                        processed + 1,
                    )) by {
                        assert(orig.skip(processed).skip(1) =~= orig.skip(processed + 1));
                        assert(open_conns(orig.take(processed + 1)) =~= open_conns(
                            orig.take(processed),
                        ).push(orig[processed]));
                    }
                    assert forall|u: u64|
                        #[trigger] closed_conn_uses(orig.take(processed + 1), u) implies
                        closed_conn_uses(orig.take(processed), u) by {
                        let k = choose|k: int|
                            #![trigger conn_uses(orig.take(processed + 1)[k].1, u)]
                            0 <= k < orig.take(processed + 1).len() && orig.take(
                                processed + 1,
                            )[k].1.state is Closed && conn_uses(orig.take(processed + 1)[k].1, u);
                        assert(orig.take(processed + 1)[k] == orig[k]);
                        if k < processed {
                            assert(orig.take(processed)[k] == orig[k]);
                        } else {
                            assert(orig[processed].1.state is Closed);
                        }
                    }
                    assert forall|u: u64|
                        closed_conn_uses(orig.take(processed), u) implies closed_conn_uses(
                        orig.take(processed + 1),
                        u,
                    ) by {
                        let k = choose|k: int|
                            #![trigger conn_uses(orig.take(processed)[k].1, u)]
                            0 <= k < orig.take(processed).len() && orig.take(
                                processed,
                            )[k].1.state is Closed && conn_uses(orig.take(processed)[k].1, u);
                        assert(orig.take(processed + 1)[k] == orig.take(processed)[k]);
                    }
                    processed = processed + 1;
                }
                i = i + 1;
            }
        }
        proof {
            assert(orig.skip(processed).len() == 0);
            assert(processed == orig.len());
            assert(orig.take(processed) =~= orig);
            assert(self.connections@ =~= open_conns(orig));
        }
    }

    /// Takes the payload staged on a stream's client of connection `i` for
    /// the QUIC send step, leaving that client's staging buffer empty.
    pub fn conn_fetch_databuf(&mut self, i: usize, stream_id: u64) -> (r: Option<Vec<u8>>)
        requires
            old(self).wf(),
            i < old(self).connections@.len(),
        ensures
            final(self).wf(),
            final(self).tokens == old(self).tokens,
            final(self).signal_token == old(self).signal_token,
            final(self).listener_token == old(self).listener_token,
            final(self).terminate == old(self).terminate,
            final(self).connections@.len() == old(self).connections@.len(),
            forall|j: int|
                0 <= j < old(self).connections@.len() && j != i ==> final(self).connections@[j]
                    == old(self).connections@[j],
            final(self).connections@[i as int].0 == old(self).connections@[i as int].0,
            final(self).connections@[i as int].1.state == old(self).connections@[i as int].1.state,
            final(self).connections@[i as int].1.received_data == old(self).connections@[i as int].1.received_data,
            r is Some <==> old(self).connections@[i as int].1.has_client(stream_id),
            old(self).connections@[i as int].1.has_client(stream_id) ==> (r matches Some(b) && b@
                == old(self).connections@[i as int].1.client_at(stream_id).readbuf@),
    {
        let ghost pre = *self;
        let r = {
            let conn = vec_index_mut(&mut self.connections, i);
            conn.1.fetch_databuf(stream_id)
        };
        proof {
            let pc = pre.connections@[i as int].1;
            let nc = self.connections@[i as int].1;
            assert forall|t: u64| #[trigger] conn_uses(nc, t) implies conn_uses(pc, t) by {
                if t != nc.token {
                    let k = choose|k: int|
                        0 <= k < nc.clients@.len() && nc.clients@[k].1.token == t;
                    assert(pc.clients@[k].1.token == t);
                    assert(pc.owns_token(t));
                }
            }
            lemma_manager_conn_update(pre, *self, i as int);
        }
        r
    }
}

/// What admission decided for one incoming socket's opening bytes: a
/// malformed request with the ERRO frame to write before closing; a
/// destination with no connection yet (the caller must create the sockets
/// and transport state, then install it); a refusal by the existing
/// connection with its ERRO frame; or attachment, with the new stream id,
/// the client socket's freshly allocated poller token, and the OKOK frame
/// owed at once when the connection is already established.
#[derive(Debug)]
pub enum AdmitOutcome {
    Reply(Vec<u8>),
    NeedConnection(crate::control::ConnRequest),
    Rejected(Vec<u8>),
    Attached { stream_id: u64, client_token: u64, reply: Option<Vec<u8>> },
}

/// The tokens and stream id of a freshly installed connection and its
/// first client.
#[derive(Debug, PartialEq, Eq, Clone, Copy)]
pub struct Installed {
    pub conn_token: u64,
    pub stream_id: u64,
    pub client_token: u64,
}

/// The diagnostic sent when an incoming socket's first message is not a
/// CONN request.
pub open spec fn expected_conn_text() -> Seq<u8> {
    "Expected CONN message".spec_bytes()
}

/// The diagnostic sent when a CONN request has too few fields.
pub open spec fn malformed_conn_text() -> Seq<u8> {
    "Malformed CONN message".spec_bytes()
}

/// Replacing connection `i` by one that is well formed, keeps the same
/// destination key, and holds no token the old one did not hold, keeps the
/// manager well formed.
proof fn lemma_manager_conn_update(pre: Manager, post: Manager, i: int)
    requires
        pre.wf(),
        0 <= i < pre.connections@.len(),
        post.tokens == pre.tokens,
        post.signal_token == pre.signal_token,
        post.listener_token == pre.listener_token,
        post.connections@.len() == pre.connections@.len(),
        forall|j: int|
            0 <= j < pre.connections@.len() && j != i ==> post.connections@[j]
                == pre.connections@[j],
        post.connections@[i].0@ == pre.connections@[i].0@,
        post.connections@[i].1.wf(),
        forall|t: u64|
            #[trigger] conn_uses(post.connections@[i].1, t) ==> conn_uses(
                pre.connections@[i].1,
                t,
            ),
    ensures
        post.wf(),
{
    assert forall|a: int, b: int|
        0 <= a < b < post.connections@.len() implies post.connections@[a].0@
        != post.connections@[b].0@ by {
        assert(post.connections@[a].0@ == pre.connections@[a].0@);
        assert(post.connections@[b].0@ == pre.connections@[b].0@);
    }
    assert forall|a: int, t: u64|
        0 <= a < post.connections@.len() && #[trigger] conn_uses(
            post.connections@[a].1,
            t,
        ) implies post.tokens.is_used(t) && t != post.signal_token && t
        != post.listener_token by {
        assert(conn_uses(pre.connections@[a].1, t));
    }
    assert forall|a: int, b: int, t: u64|
        0 <= a < b < post.connections@.len() implies !(#[trigger] conn_uses(
        post.connections@[a].1,
        t,
    ) && #[trigger] conn_uses(post.connections@[b].1, t)) by {
        if conn_uses(post.connections@[a].1, t) && conn_uses(post.connections@[b].1, t) {
            assert(conn_uses(pre.connections@[a].1, t));
            assert(conn_uses(pre.connections@[b].1, t));
        }
    }
}

/// Replacing connection `i` as above while one token it held is returned
/// to the allocator keeps the manager well formed: no other live owner can
/// hold the freed token.
proof fn lemma_manager_conn_update_freed(pre: Manager, post: Manager, i: int, freed: u64)
    requires
        pre.wf(),
        0 <= i < pre.connections@.len(),
        conn_uses(pre.connections@[i].1, freed),
        post.tokens.wf(),
        forall|u: u64| u != freed ==> post.tokens.is_used(u) == pre.tokens.is_used(u),
        post.signal_token == pre.signal_token,
        post.listener_token == pre.listener_token,
        post.connections@.len() == pre.connections@.len(),
        forall|j: int|
            0 <= j < pre.connections@.len() && j != i ==> post.connections@[j]
                == pre.connections@[j],
        post.connections@[i].0@ == pre.connections@[i].0@,
        post.connections@[i].1.wf(),
        forall|t: u64|
            #[trigger] conn_uses(post.connections@[i].1, t) ==> conn_uses(
                pre.connections@[i].1,
                t,
            ) && t != freed,
    ensures
        post.wf(),
{
    assert(freed != pre.signal_token && freed != pre.listener_token);
    assert forall|a: int, b: int|
        0 <= a < b < post.connections@.len() implies post.connections@[a].0@
        != post.connections@[b].0@ by {
        assert(post.connections@[a].0@ == pre.connections@[a].0@);
        assert(post.connections@[b].0@ == pre.connections@[b].0@);
    }
    assert forall|a: int, t: u64|
        0 <= a < post.connections@.len() && #[trigger] conn_uses(
            post.connections@[a].1,
            t,
        ) implies post.tokens.is_used(t) && t != post.signal_token && t
        != post.listener_token by {
        assert(conn_uses(pre.connections@[a].1, t));
        if a != i {
            if t == freed {
                if a < i {
                    assert(!(conn_uses(pre.connections@[a].1, t) && conn_uses(
                        pre.connections@[i].1,
                        t,
                    )));
                } else {
                    assert(!(conn_uses(pre.connections@[i].1, t) && conn_uses(
                        pre.connections@[a].1,
                        t,
                    )));
                }
            }
        }
        assert(t != freed);
        assert(post.tokens.is_used(t) == pre.tokens.is_used(t));
    }
    assert forall|a: int, b: int, t: u64|
        0 <= a < b < post.connections@.len() implies !(#[trigger] conn_uses(
        post.connections@[a].1,
        t,
    ) && #[trigger] conn_uses(post.connections@[b].1, t)) by {
        if conn_uses(post.connections@[a].1, t) && conn_uses(post.connections@[b].1, t) {
            assert(conn_uses(pre.connections@[a].1, t));
            assert(conn_uses(pre.connections@[b].1, t));
        }
    }
}

/// The least pending timeout among a batch of per-connection reports
/// (milliseconds; absent means that connection has no timer pending):
/// nothing when no connection has a timer, else the minimum.
pub open spec fn spec_min_timeout(s: Seq<Option<u64>>) -> Option<u64>
    decreases s.len(),
{
    if s.len() == 0 {
        None
    } else {
        let rest = spec_min_timeout(s.skip(1));
        match (s[0], rest) {
            (Option::None, r) => r,
            (Option::Some(x), Option::None) => Some(x),
            (Option::Some(x), Option::Some(y)) => if x <= y {
                Some(x)
            } else {
                Some(y)
            },
        }
    }
}

/// The least pending timeout is a pending timeout, and no pending timeout
/// undercuts it; and it is absent exactly when no timeout is pending. The
/// poll deadline computed this way lets the earliest QUIC timer fire even
/// while no socket is readable.
pub proof fn lemma_min_timeout_properties(s: Seq<Option<u64>>)
    ensures
        spec_min_timeout(s) is None <==> (forall|i: int| 0 <= i < s.len() ==> s[i] is None),
        spec_min_timeout(s) matches Some(m) ==> (exists|i: int|
            0 <= i < s.len() && s[i] == Some(m)),
        spec_min_timeout(s) matches Some(m) ==> (forall|i: int|
            0 <= i < s.len() && s[i] is Some ==> m <= s[i]->0),
    decreases s.len(),
{
    if s.len() > 0 {
        let rest = s.skip(1);
        lemma_min_timeout_properties(rest);
        assert(forall|i: int| 0 <= i < rest.len() ==> rest[i] == s[i + 1]);
        if spec_min_timeout(s) is Some {
            let m = spec_min_timeout(s)->0;
            if spec_min_timeout(rest) is Some {
                let y = spec_min_timeout(rest)->0;
                let j = choose|j: int| 0 <= j < rest.len() && rest[j] == Some(y);
                assert(s[j + 1] == Some(y));
            }
            assert forall|i: int| 0 <= i < s.len() && s[i] is Some implies m <= s[i]->0 by {
                if i > 0 {
                    assert(rest[i - 1] == s[i]);
                }
            }
        }
        if spec_min_timeout(s) is None {
            assert forall|i: int| 0 <= i < s.len() implies s[i] is None by {
                if i > 0 {
                    assert(rest[i - 1] == s[i]);
                }
            }
        }
    }
}

/// The poll deadline for one iteration: the minimum of the pending
/// timeouts the connections reported, or nothing (block indefinitely) when
/// none is pending.
pub fn min_timeout(ts: &Vec<Option<u64>>) -> (r: Option<u64>)
    ensures
        r == spec_min_timeout(ts@),
{
    let mut acc: Option<u64> = None;
    let mut i = ts.len();
    proof {
        assert(ts@.skip(i as int) =~= Seq::<Option<u64>>::empty());
    }
    while i > 0
        invariant
            i <= ts@.len(),
            acc == spec_min_timeout(ts@.skip(i as int)),
        decreases i,
    {
        i = i - 1;
        let cur = ts[i];
        acc =
        match (cur, acc) {
            (Option::None, r) => r,
            (Option::Some(x), Option::None) => Some(x),
            (Option::Some(x), Option::Some(y)) => if x <= y {
                Some(x)
            } else {
                Some(y)
            },
        };
        proof {
            let suf = ts@.skip(i as int);
            assert(suf[0] == ts@[i as int]);
            assert(suf.skip(1) =~= ts@.skip(i as int + 1));
        }
    }
    proof {
        assert(ts@.skip(0) =~= ts@);
    }
    acc
}

/// The connections that stay after garbage collection: every entry whose
/// state the transport has not reported closed, in order.
pub open spec fn open_conns(s: Seq<(Vec<u8>, Connection)>) -> Seq<(Vec<u8>, Connection)> {
    s.filter(|q: (Vec<u8>, Connection)| !(q.1.state is Closed))
}

/// Of an empty list, nothing stays.
proof fn lemma_open_conns_empty(s: Seq<(Vec<u8>, Connection)>)
    requires
        s.len() == 0,
    ensures
        open_conns(s) == s,
{
    reveal(Seq::filter);
}

/// Appending one entry keeps it exactly when its connection is not closed.
proof fn lemma_open_conns_push(s: Seq<(Vec<u8>, Connection)>, e: (Vec<u8>, Connection))
    ensures
        open_conns(s.push(e)) == (if !(e.1.state is Closed) {
            open_conns(s).push(e)
        } else {
            open_conns(s)
        }),
{
    reveal(Seq::filter);
    assert(s.push(e).drop_last() =~= s);
    assert(s.push(e).last() == e);
}

/// At most one connection exists per destination key at any instant: two
/// positions in a well-formed manager's connection list holding the same
/// key are the same position.
pub proof fn lemma_one_connection_per_destination(m: Manager, i: int, j: int)
    requires
        m.wf(),
        0 <= i < m.connections@.len(),
        0 <= j < m.connections@.len(),
        m.connections@[i].0@ == m.connections@[j].0@,
    ensures
        i == j,
{
    if i < j {
        assert(m.connections@[i].0@ != m.connections@[j].0@);
    } else if j < i {
        assert(m.connections@[j].0@ != m.connections@[i].0@);
    }
}

/// Every live token — one held by a connection's UDP socket or by one of
/// its clients' sockets — is currently allocated, and is neither the
/// signal source's token nor the listening endpoint's. (That a departing
/// client's token leaves this set within its event is part of the
/// client-event contract.)
pub proof fn lemma_live_token_allocated(m: Manager, i: int, t: u64)
    requires
        m.wf(),
        0 <= i < m.connections@.len(),
        conn_uses(m.connections@[i].1, t),
    ensures
        m.tokens.is_used(t),
        t != m.signal_token,
        t != m.listener_token,
{
}

/// Removing one connection keeps the manager well formed.
proof fn lemma_manager_conns_remove(pre: Manager, post: Manager, i: int)
    requires
        pre.wf(),
        0 <= i < pre.connections@.len(),
        post.connections@ == pre.connections@.remove(i),
        post.tokens == pre.tokens,
        post.signal_token == pre.signal_token,
        post.listener_token == pre.listener_token,
    ensures
        post.wf(),
{
    let ocl = pre.connections@;
    let ncl = post.connections@;
    assert(ncl.len() == ocl.len() - 1);
    assert(forall|k: int| 0 <= k < i ==> ncl[k] == ocl[k]);
    assert(forall|k: int| i <= k < ncl.len() ==> ncl[k] == ocl[k + 1]);
    assert forall|a: int, b: int| 0 <= a < b < ncl.len() implies ncl[a].0@ != ncl[b].0@ by {
        if b < i {
            assert(ncl[a] == ocl[a] && ncl[b] == ocl[b]);
        } else if a < i {
            assert(ncl[a] == ocl[a] && ncl[b] == ocl[b + 1]);
        } else {
            assert(ncl[a] == ocl[a + 1] && ncl[b] == ocl[b + 1]);
        }
    }
    assert forall|a: int| 0 <= a < ncl.len() implies (#[trigger] ncl[a].1).wf() by {
        if a < i {
            assert(ncl[a] == ocl[a]);
            assert(ocl[a].1.wf());
        } else {
            assert(ncl[a] == ocl[a + 1]);
            assert(ocl[a + 1].1.wf());
        }
    }
    assert forall|a: int, t: u64|
        0 <= a < ncl.len() && #[trigger] conn_uses(ncl[a].1, t) implies post.tokens.is_used(t)
        && t != post.signal_token && t != post.listener_token by {
        if a < i {
            assert(ncl[a] == ocl[a]);
            assert(conn_uses(ocl[a].1, t));
        } else {
            assert(ncl[a] == ocl[a + 1]);
            assert(conn_uses(ocl[a + 1].1, t));
        }
    }
    assert forall|a: int, b: int, t: u64|
        0 <= a < b < ncl.len() implies !(#[trigger] conn_uses(ncl[a].1, t)
        && #[trigger] conn_uses(ncl[b].1, t)) by {
        if conn_uses(ncl[a].1, t) && conn_uses(ncl[b].1, t) {
            if b < i {
                assert(conn_uses(ocl[a].1, t) && conn_uses(ocl[b].1, t));
            } else if a < i {
                assert(conn_uses(ocl[a].1, t) && conn_uses(ocl[b + 1].1, t));
            } else {
                assert(conn_uses(ocl[a + 1].1, t) && conn_uses(ocl[b + 1].1, t));
            }
        }
    }
}

/// With the connections unchanged and every token's allocation state the
/// same, the manager stays well formed.
proof fn lemma_manager_same_uses_views(pre: Manager, post: Manager)
    requires
        pre.wf(),
        post.tokens.wf(),
        forall|u: u64| post.tokens.is_used(u) == pre.tokens.is_used(u),
        post.signal_token == pre.signal_token,
        post.listener_token == pre.listener_token,
        post.connections@ == pre.connections@,
    ensures
        post.wf(),
{
}

/// Replacing connection `i` by one that additionally holds one freshly
/// allocated token keeps the manager well formed: the fresh token was no
/// live owner's.
proof fn lemma_manager_conn_update_grown(pre: Manager, post: Manager, i: int, t: u64)
    requires
        pre.wf(),
        0 <= i < pre.connections@.len(),
        !pre.tokens.is_used(t),
        post.tokens.wf(),
        post.tokens.is_used(t),
        forall|u: u64| u != t ==> post.tokens.is_used(u) == pre.tokens.is_used(u),
        post.signal_token == pre.signal_token,
        post.listener_token == pre.listener_token,
        post.connections@.len() == pre.connections@.len(),
        forall|j: int|
            0 <= j < pre.connections@.len() && j != i ==> post.connections@[j]
                == pre.connections@[j],
        post.connections@[i].0@ == pre.connections@[i].0@,
        post.connections@[i].1.wf(),
        forall|u: u64|
            #[trigger] conn_uses(post.connections@[i].1, u) ==> (conn_uses(
                pre.connections@[i].1,
                u,
            ) || u == t),
    ensures
        post.wf(),
{
    assert(t != pre.signal_token && t != pre.listener_token);
    assert forall|a: int, b: int|
        0 <= a < b < post.connections@.len() implies post.connections@[a].0@
        != post.connections@[b].0@ by {
        assert(post.connections@[a].0@ == pre.connections@[a].0@);
        assert(post.connections@[b].0@ == pre.connections@[b].0@);
    }
    assert forall|a: int, u: u64|
        0 <= a < post.connections@.len() && #[trigger] conn_uses(
            post.connections@[a].1,
            u,
        ) implies post.tokens.is_used(u) && u != post.signal_token && u
        != post.listener_token by {
        if a == i {
            if u != t {
                assert(conn_uses(pre.connections@[a].1, u));
            }
        } else {
            assert(conn_uses(pre.connections@[a].1, u));
            assert(u != t);
        }
    }
    assert forall|a: int, b: int, u: u64|
        0 <= a < b < post.connections@.len() implies !(#[trigger] conn_uses(
        post.connections@[a].1,
        u,
    ) && #[trigger] conn_uses(post.connections@[b].1, u)) by {
        if conn_uses(post.connections@[a].1, u) && conn_uses(post.connections@[b].1, u) {
            if a != i {
                assert(conn_uses(pre.connections@[a].1, u));
                assert(u != t);
            }
            if b != i {
                assert(conn_uses(pre.connections@[b].1, u));
                assert(u != t);
            }
            assert(conn_uses(pre.connections@[a].1, u));
            assert(conn_uses(pre.connections@[b].1, u));
        }
    }
}

/// Appending a connection for a destination that had none, holding only
/// two freshly allocated tokens, keeps the manager well formed.
proof fn lemma_manager_conn_push(pre: Manager, post: Manager, ct: u64, clt: u64)
    requires
        pre.wf(),
        !pre.has_conn(post.connections@.last().0@),
        !pre.tokens.is_used(ct),
        !pre.tokens.is_used(clt),
        ct != clt,
        post.tokens.wf(),
        post.tokens.is_used(ct),
        post.tokens.is_used(clt),
        forall|u: u64| u != ct && u != clt ==> post.tokens.is_used(u) == pre.tokens.is_used(u),
        post.signal_token == pre.signal_token,
        post.listener_token == pre.listener_token,
        post.connections@.len() == pre.connections@.len() + 1,
        forall|j: int|
            0 <= j < pre.connections@.len() ==> post.connections@[j] == pre.connections@[j],
        post.connections@.last().1.wf(),
        forall|u: u64|
            #[trigger] conn_uses(post.connections@.last().1, u) ==> (u == ct || u == clt),
    ensures
        post.wf(),
{
    let n = pre.connections@.len() as int;
    assert(ct != pre.signal_token && ct != pre.listener_token);
    assert(clt != pre.signal_token && clt != pre.listener_token);
    assert forall|a: int, b: int|
        0 <= a < b < post.connections@.len() implies post.connections@[a].0@
        != post.connections@[b].0@ by {
        if b < n {
            assert(post.connections@[a].0@ == pre.connections@[a].0@);
            assert(post.connections@[b].0@ == pre.connections@[b].0@);
        } else {
            assert(post.connections@[a].0@ == pre.connections@[a].0@);
            if post.connections@[a].0@ == post.connections@[b].0@ {
                assert(pre.has_conn(post.connections@.last().0@));
            }
        }
    }
    assert forall|a: int|
        0 <= a < post.connections@.len() implies (#[trigger] post.connections@[a].1).wf() by {
        if a < n {
            assert(post.connections@[a].1 == pre.connections@[a].1);
            assert(pre.connections@[a].1.wf());
        }
    }
    assert forall|a: int, u: u64|
        0 <= a < post.connections@.len() && #[trigger] conn_uses(
            post.connections@[a].1,
            u,
        ) implies post.tokens.is_used(u) && u != post.signal_token && u
        != post.listener_token by {
        if a < n {
            assert(conn_uses(pre.connections@[a].1, u));
            assert(u != ct && u != clt);
        }
    }
    assert forall|a: int, b: int, u: u64|
        0 <= a < b < post.connections@.len() implies !(#[trigger] conn_uses(
        post.connections@[a].1,
        u,
    ) && #[trigger] conn_uses(post.connections@[b].1, u)) by {
        if conn_uses(post.connections@[a].1, u) && conn_uses(post.connections@[b].1, u) {
            assert(conn_uses(pre.connections@[a].1, u));
            assert(u != ct && u != clt);
            if b < n {
                assert(conn_uses(pre.connections@[b].1, u));
            }
        }
    }
}

} // verus!
